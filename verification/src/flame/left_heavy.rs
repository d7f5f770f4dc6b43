//! The left-heavy flame graph: the call tree laid out as bricks.

use crate::flame::call_tree::{
    call_tree, conserves, has_frame, is_call_tree, is_level, is_node, law_call_tree_conserves,
    events_through, law_call_tree_is_determined, lemma_call_tree_ignores_order,
    lemma_events_through, lemma_level_conserves, lemma_stack_starts, level_sum, occurs, same_nodes,
    stack_starts, weighted_stacks, CallNode, CallTree,
};
use crate::flame::layout::{
    brick_models, call_path, deep_sum, is_parent, lemma_row_sum_add, passes, row_sum, through, Brick,
    BrickModel,
};
use crate::profile::{weight_sum, FrameId, SampleModel, Thread};
use vstd::prelude::*;

verus! {

// ---------------------------------------------------------------------------
// What the layout is
// ---------------------------------------------------------------------------

/// The brick of a node whose left edge is at `x`.
pub open spec fn node_brick(node: CallNode, depth: int, x: int) -> BrickModel {
    BrickModel {
        depth,
        start: x,
        width: node.total_samples as int,
        frame: node.frame,
        samples: node.total_samples as int,
    }
}

/// The bricks of a row of siblings that starts at `x`, left to right. Each node is
/// as wide as its events, and comes after its children, which start where it does.
pub open spec fn placed(nodes: Seq<CallNode>, depth: int, x: int) -> Seq<BrickModel>
    decreases nodes,
{
    if nodes.len() == 0 {
        Seq::empty()
    } else {
        let left = x + level_sum(nodes.drop_last());
        placed(nodes.drop_last(), depth, x) + placed(
            nodes[nodes.len() - 1].children@,
            depth + 1,
            left,
        ).push(node_brick(nodes[nodes.len() - 1], depth, left))
    }
}

/// The bricks are the left-heavy layout of `samples`: those of its call tree.
pub open spec fn is_left_heavy<T>(
    bricks: Seq<BrickModel>,
    samples: Seq<SampleModel<T>>,
) -> bool {
    exists|tree: CallTree| #[trigger]
        is_call_tree(tree, samples) && bricks == placed(tree.roots@, 1, 0)
}

/// No stack is too deep for its rows to be numbered.
spec fn depths_fit<T>(samples: Seq<SampleModel<T>>) -> bool {
    forall|i: int| 0 <= i < samples.len() ==> (#[trigger] samples[i]).stack.len() <= usize::MAX
}

proof fn lemma_level_sum_take(nodes: Seq<CallNode>, k: int)
    requires
        0 <= k <= nodes.len(),
    ensures
        level_sum(nodes.take(k)) <= level_sum(nodes),
    decreases nodes.len(),
{
    if k < nodes.len() {
        lemma_level_sum_take(nodes.drop_last(), k);
        assert(nodes.drop_last().take(k) =~= nodes.take(k));
    } else {
        assert(nodes.take(k) =~= nodes);
    }
}

// ---------------------------------------------------------------------------
// Placing the bricks
// ---------------------------------------------------------------------------

/// Places a row of siblings left to right, each after its children.
fn place_left_heavy<T>(
    nodes: &Vec<CallNode>,
    depth: usize,
    x: u64,
    out: &mut Vec<Brick>,
    Ghost(samples): Ghost<Seq<SampleModel<T>>>,
    Ghost(path): Ghost<Seq<FrameId>>,
)
    requires
        is_level(nodes@, samples, path),
        depths_fit(samples),
        depth == path.len() + 1,
        x + level_sum(nodes@) <= u64::MAX,
    ensures
        brick_models(final(out)@) == brick_models(old(out)@) + placed(
            nodes@,
            depth as int,
            x as int,
        ),
    decreases nodes,
{
    let ghost before = brick_models(out@);
    let mut left: u64 = x;
    let n = nodes.len();
    assert(before + placed(nodes@.take(0), depth as int, x as int) =~= before);
    for i in 0..n
        invariant
            n == nodes@.len(),
            is_level(nodes@, samples, path),
            depths_fit(samples),
            depth == path.len() + 1,
            x + level_sum(nodes@) <= u64::MAX,
            left == x + level_sum(nodes@.take(i as int)),
            brick_models(out@) == before + placed(nodes@.take(i as int), depth as int, x as int),
    {
        let node = &nodes[i];
        let ghost sub = path.push(node.frame);
        let ghost shown = brick_models(out@);
        proof {
            assert(is_node(nodes@[i as int], samples, path));
            assert(nodes@.take(i + 1).drop_last() =~= nodes@.take(i as int));
            lemma_level_sum_take(nodes@, i + 1);
            lemma_level_conserves(node.children@, samples, sub);
        }
        if node.children.len() > 0 {
            proof {
                // A child has a sample that reaches its row.
                let child = node.children@[0];
                assert(has_frame(node.children@, child.frame));
                assert(occurs(samples, sub.push(child.frame)));
                let m = choose|m: int|
                    0 <= m < samples.len() && passes(#[trigger] samples[m], sub.push(child.frame));
                assert(samples[m].stack.len() <= usize::MAX);
            }
            assert(decreases_to!(nodes => nodes@));
            assert(decreases_to!(nodes@ => nodes@[i as int]));
            assert(decreases_to!(nodes@[i as int] => nodes@[i as int].children));
            place_left_heavy::<T>(
                &node.children,
                depth + 1,
                left,
                out,
                Ghost(samples),
                Ghost(sub),
            );
        }
        let ghost inner = placed(node.children@, depth + 1, left as int);
        assert(brick_models(out@) =~= shown + inner);
        let ghost pushed = out@;
        out.push(
            Brick {
                depth,
                start: left,
                width: node.total_samples,
                frame: node.frame,
                samples: node.total_samples,
            },
        );
        proof {
            let brick = node_brick(*node, depth as int, left as int);
            assert(out@.last()@ =~= brick);
            assert(brick_models(out@) =~= brick_models(pushed).push(brick));
            assert(brick_models(out@) =~= shown + inner.push(brick));
            assert(brick_models(out@) =~= before + (placed(
                nodes@.take(i as int),
                depth as int,
                x as int,
            ) + inner.push(brick)));
        }
        left = left + node.total_samples;
    }
    assert(nodes@.take(n as int) =~= nodes@);
}

/// Lays out a thread as a left-heavy flame graph: identical stacks are merged
/// regardless of when they were sampled, and siblings are ordered widest first from
/// the left. The x axis counts events.
pub fn left_heavy<T>(thread: &Thread<T>) -> (r: Vec<Brick>)
    requires
        weight_sum(thread@.samples) <= u64::MAX,
    ensures
        is_left_heavy(brick_models(r@), thread@.samples),
{
    let tree = call_tree(thread);
    let mut bricks: Vec<Brick> = Vec::new();
    proof {
        law_call_tree_conserves(tree, thread@.samples);
        assert forall|i: int| 0 <= i < thread@.samples.len() implies (
        #[trigger] thread@.samples[i]).stack.len() <= usize::MAX by {
            assert(thread@.samples[i].stack == thread.samples@[i].stack@);
            assert(thread.samples@[i].stack.len() <= usize::MAX);
        }
    }
    place_left_heavy::<T>(
        &tree.roots,
        1,
        0,
        &mut bricks,
        Ghost(thread@.samples),
        Ghost(Seq::empty()),
    );
    assert(brick_models(bricks@) =~= placed(tree.roots@, 1, 0));
    bricks
}

// ---------------------------------------------------------------------------
// Laws of the layout
// ---------------------------------------------------------------------------

/// The pieces of a row: its siblings but the last, the children of the last, and
/// the last itself.
proof fn lemma_placed_parts(nodes: Seq<CallNode>, depth: int, x: int)
    requires
        nodes.len() > 0,
    ensures
        ({
            let left = x + level_sum(nodes.drop_last());
            let a = placed(nodes.drop_last(), depth, x);
            let b = placed(nodes[nodes.len() - 1].children@, depth + 1, left);
            let all = placed(nodes, depth, x);
            &&& all.len() == a.len() + b.len() + 1
            &&& forall|i: int| 0 <= i < a.len() ==> #[trigger] all[i] == a[i]
            &&& forall|i: int| a.len() <= i < a.len() + b.len() ==> #[trigger] all[i] == b[i
                - a.len()]
            &&& all[(a.len() + b.len()) as int] == node_brick(nodes[nodes.len() - 1], depth, left)
        }),
{
}

/// At every node, the children together are no wider than the node.
pub open spec fn fits(nodes: Seq<CallNode>) -> bool
    decreases nodes,
{
    forall|i: int|
        0 <= i < nodes.len() ==> {
            &&& level_sum((#[trigger] nodes[i]).children@) <= nodes[i].total_samples
            &&& fits(nodes[i].children@)
        }
}

proof fn lemma_fits_drop_last(nodes: Seq<CallNode>)
    requires
        fits(nodes),
        nodes.len() > 0,
    ensures
        fits(nodes.drop_last()),
{
    let rest = nodes.drop_last();
    assert forall|i: int| 0 <= i < rest.len() implies level_sum(
        (#[trigger] rest[i]).children@,
    ) <= rest[i].total_samples && fits(rest[i].children@) by {
        assert(rest[i] == nodes[i]);
    }
}

proof fn lemma_conserves_fits(nodes: Seq<CallNode>)
    requires
        conserves(nodes),
    ensures
        fits(nodes),
    decreases nodes,
{
    assert forall|i: int| 0 <= i < nodes.len() implies level_sum(
        (#[trigger] nodes[i]).children@,
    ) <= nodes[i].total_samples && fits(nodes[i].children@) by {
        lemma_conserves_fits(nodes[i].children@);
    }
}

/// The bricks of a row and above lie between its edges.
proof fn lemma_placed_within(nodes: Seq<CallNode>, depth: int, x: int)
    requires
        fits(nodes),
    ensures
        forall|i: int|
            0 <= i < placed(nodes, depth, x).len() ==> {
                let b = #[trigger] placed(nodes, depth, x)[i];
                b.depth >= depth && x <= b.start && b.end() <= x + level_sum(nodes)
            },
    decreases nodes,
{
    if nodes.len() > 0 {
        let last = nodes[nodes.len() - 1];
        let left = x + level_sum(nodes.drop_last());
        lemma_fits_drop_last(nodes);
        lemma_placed_within(nodes.drop_last(), depth, x);
        lemma_placed_within(last.children@, depth + 1, left);
        lemma_placed_parts(nodes, depth, x);
    }
}

/// Two bricks of one row lie one beside the other, in the order of the list.
proof fn lemma_placed_apart(nodes: Seq<CallNode>, depth: int, x: int, i: int, j: int)
    requires
        fits(nodes),
        0 <= i < j < placed(nodes, depth, x).len(),
        placed(nodes, depth, x)[i].depth == placed(nodes, depth, x)[j].depth,
    ensures
        placed(nodes, depth, x)[i].end() <= placed(nodes, depth, x)[j].start,
    decreases nodes,
{
    if nodes.len() > 0 {
        let last = nodes[nodes.len() - 1];
        let left = x + level_sum(nodes.drop_last());
        let a = placed(nodes.drop_last(), depth, x);
        let b = placed(last.children@, depth + 1, left);
        lemma_fits_drop_last(nodes);
        lemma_placed_within(nodes.drop_last(), depth, x);
        lemma_placed_within(last.children@, depth + 1, left);
        lemma_placed_parts(nodes, depth, x);
        if j < a.len() {
            lemma_placed_apart(nodes.drop_last(), depth, x, i, j);
        } else if i < a.len() {
            assert(a[i].end() <= left);
        } else if j < a.len() + b.len() {
            lemma_placed_apart(last.children@, depth + 1, left, i - a.len(), j - a.len());
        } else {
            assert(b[i - a.len()].depth >= depth + 1);
        }
    }
}

/// Every brick above the first row of the list lies within some brick of the row
/// below.
proof fn lemma_placed_parent(nodes: Seq<CallNode>, depth: int, x: int, c: int) -> (p: int)
    requires
        fits(nodes),
        0 <= c < placed(nodes, depth, x).len(),
        placed(nodes, depth, x)[c].depth > depth,
    ensures
        0 <= p < placed(nodes, depth, x).len(),
        is_parent(placed(nodes, depth, x)[p], placed(nodes, depth, x)[c]),
    decreases nodes,
{
    let last = nodes[nodes.len() - 1];
    let left = x + level_sum(nodes.drop_last());
    let a = placed(nodes.drop_last(), depth, x);
    let b = placed(last.children@, depth + 1, left);
    lemma_fits_drop_last(nodes);
    lemma_placed_within(last.children@, depth + 1, left);
    lemma_placed_parts(nodes, depth, x);
    if c < a.len() {
        lemma_placed_parent(nodes.drop_last(), depth, x, c)
    } else if b[c - a.len()].depth > depth + 1 {
        a.len() + lemma_placed_parent(last.children@, depth + 1, left, c - a.len())
    } else {
        (a.len() + b.len()) as int
    }
}

/// The bricks of row `d` are no wider than the list, those of its own row exactly as
/// wide.
proof fn lemma_placed_row(nodes: Seq<CallNode>, depth: int, x: int, d: int)
    requires
        fits(nodes),
    ensures
        0 <= row_sum(placed(nodes, depth, x), d) <= level_sum(nodes),
        d == depth ==> row_sum(placed(nodes, depth, x), d) == level_sum(nodes),
        d < depth ==> row_sum(placed(nodes, depth, x), d) == 0,
    decreases nodes,
{
    if nodes.len() > 0 {
        let last = nodes[nodes.len() - 1];
        let left = x + level_sum(nodes.drop_last());
        let a = placed(nodes.drop_last(), depth, x);
        let b = placed(last.children@, depth + 1, left);
        let brick = node_brick(last, depth, left);
        lemma_fits_drop_last(nodes);
        lemma_placed_row(nodes.drop_last(), depth, x, d);
        lemma_placed_row(last.children@, depth + 1, left, d);
        lemma_row_sum_add(a, b.push(brick), d);
        assert(b.push(brick).drop_last() =~= b);
    }
}

/// Every node of the list and above has events.
pub open spec fn positive(nodes: Seq<CallNode>) -> bool
    decreases nodes,
{
    forall|i: int|
        0 <= i < nodes.len() ==> (#[trigger] nodes[i]).total_samples > 0 && positive(
            nodes[i].children@,
        )
}

proof fn lemma_positive_through<T>(samples: Seq<SampleModel<T>>, path: Seq<FrameId>)
    requires
        occurs(samples, path),
        forall|i: int| 0 <= i < samples.len() ==> (#[trigger] samples[i]).weight > 0,
    ensures
        through(samples, path) > 0,
    decreases samples.len(),
{
    let m = choose|m: int| 0 <= m < samples.len() && passes(#[trigger] samples[m], path);
    if m == samples.len() - 1 {
        assert(samples[m].weight > 0);
    } else {
        let rest = samples.drop_last();
        assert(passes(rest[m], path));
        assert forall|i: int| 0 <= i < rest.len() implies (#[trigger] rest[i]).weight > 0 by {
            assert(rest[i] == samples[i]);
        }
        lemma_positive_through(rest, path);
    }
}

proof fn lemma_positive<T>(nodes: Seq<CallNode>, samples: Seq<SampleModel<T>>, path: Seq<FrameId>)
    requires
        is_level(nodes, samples, path),
        forall|i: int| 0 <= i < samples.len() ==> (#[trigger] samples[i]).weight > 0,
    ensures
        positive(nodes),
    decreases nodes,
{
    assert forall|i: int| 0 <= i < nodes.len() implies (#[trigger] nodes[i]).total_samples > 0
        && positive(nodes[i].children@) by {
        let sub = path.push(nodes[i].frame);
        assert(is_node(nodes[i], samples, path));
        assert(has_frame(nodes, nodes[i].frame));
        lemma_positive_through(samples, sub);
        lemma_positive(nodes[i].children@, samples, sub);
    }
}

proof fn lemma_placed_positive(nodes: Seq<CallNode>, depth: int, x: int)
    requires
        positive(nodes),
    ensures
        forall|i: int|
            0 <= i < placed(nodes, depth, x).len() ==> (#[trigger] placed(nodes, depth, x)[i]).width
                > 0,
    decreases nodes,
{
    if nodes.len() > 0 {
        let last = nodes[nodes.len() - 1];
        let left = x + level_sum(nodes.drop_last());
        let rest = nodes.drop_last();
        assert(positive(rest)) by {
            assert forall|i: int| 0 <= i < rest.len() implies (#[trigger] rest[i]).total_samples > 0
                && positive(rest[i].children@) by {
                assert(rest[i] == nodes[i]);
            }
        }
        lemma_placed_positive(rest, depth, x);
        lemma_placed_positive(last.children@, depth + 1, left);
        lemma_placed_parts(nodes, depth, x);
    }
}

/// In the left-heavy layout two bricks of one row lie one beside the other.
pub proof fn law_left_heavy_rows_do_not_overlap<T>(
    bricks: Seq<BrickModel>,
    samples: Seq<SampleModel<T>>,
    i: int,
    j: int,
)
    requires
        is_left_heavy(bricks, samples),
        0 <= i < j < bricks.len(),
        bricks[i].depth == bricks[j].depth,
    ensures
        bricks[i].end() <= bricks[j].start,
{
    let tree = choose|tree: CallTree| #[trigger]
        is_call_tree(tree, samples) && bricks == placed(tree.roots@, 1, 0);
    law_call_tree_conserves(tree, samples);
    lemma_conserves_fits(tree.roots@);
    lemma_placed_apart(tree.roots@, 1, 0, i, j);
}

/// In the left-heavy layout every brick above the first row lies within exactly one
/// brick of the row below. (A sample without weight has bricks without width, which
/// may lie on the edge that two bricks share.)
pub proof fn law_left_heavy_bricks_nest<T>(
    bricks: Seq<BrickModel>,
    samples: Seq<SampleModel<T>>,
    c: int,
) -> (p: int)
    requires
        is_left_heavy(bricks, samples),
        forall|i: int| 0 <= i < samples.len() ==> (#[trigger] samples[i]).weight > 0,
        0 <= c < bricks.len(),
        bricks[c].depth >= 2,
    ensures
        0 <= p < bricks.len(),
        is_parent(bricks[p], bricks[c]),
        forall|q: int|
            0 <= q < bricks.len() && is_parent(#[trigger] bricks[q], bricks[c]) ==> q == p,
{
    let tree = choose|tree: CallTree| #[trigger]
        is_call_tree(tree, samples) && bricks == placed(tree.roots@, 1, 0);
    law_call_tree_conserves(tree, samples);
    lemma_conserves_fits(tree.roots@);
    lemma_positive(tree.roots@, samples, Seq::empty());
    lemma_placed_positive(tree.roots@, 1, 0);
    let p = lemma_placed_parent(tree.roots@, 1, 0, c);
    assert forall|q: int|
        0 <= q < bricks.len() && is_parent(#[trigger] bricks[q], bricks[c]) implies q == p by {
        assert(bricks[c].width > 0);
        if q < p {
            lemma_placed_apart(tree.roots@, 1, 0, q, p);
        } else if p < q {
            lemma_placed_apart(tree.roots@, 1, 0, p, q);
        }
    }
    p
}

/// The first row of the left-heavy layout is as wide as the events of the samples
/// that have a stack, no row is wider, and every brick is as wide as its events.
pub proof fn law_left_heavy_rows_are_bounded<T>(
    bricks: Seq<BrickModel>,
    samples: Seq<SampleModel<T>>,
    d: int,
)
    requires
        is_left_heavy(bricks, samples),
    ensures
        row_sum(bricks, 1) == deep_sum(samples, 1),
        row_sum(bricks, d) <= row_sum(bricks, 1),
        forall|i: int|
            0 <= i < bricks.len() ==> {
                &&& (#[trigger] bricks[i]).samples == bricks[i].width
                &&& bricks[i].depth >= 1
                &&& 0 <= bricks[i].start
                &&& bricks[i].end() <= deep_sum(samples, 1)
            },
{
    let tree = choose|tree: CallTree| #[trigger]
        is_call_tree(tree, samples) && bricks == placed(tree.roots@, 1, 0);
    law_call_tree_conserves(tree, samples);
    lemma_conserves_fits(tree.roots@);
    lemma_placed_row(tree.roots@, 1, 0, 1);
    lemma_placed_row(tree.roots@, 1, 0, d);
    lemma_placed_within(tree.roots@, 1, 0);
    lemma_placed_widths(tree.roots@, 1, 0);
}

proof fn lemma_placed_widths(nodes: Seq<CallNode>, depth: int, x: int)
    ensures
        forall|i: int|
            0 <= i < placed(nodes, depth, x).len() ==> (#[trigger] placed(
                nodes,
                depth,
                x,
            )[i]).samples == placed(nodes, depth, x)[i].width,
    decreases nodes,
{
    if nodes.len() > 0 {
        let left = x + level_sum(nodes.drop_last());
        lemma_placed_widths(nodes.drop_last(), depth, x);
        lemma_placed_widths(nodes[nodes.len() - 1].children@, depth + 1, left);
        lemma_placed_parts(nodes, depth, x);
    }
}

proof fn lemma_placed_same(a: Seq<CallNode>, b: Seq<CallNode>, depth: int, x: int)
    requires
        same_nodes(a, b),
    ensures
        placed(a, depth, x) == placed(b, depth, x),
        level_sum(a) == level_sum(b),
    decreases a,
{
    if a.len() > 0 {
        let n = a.len() - 1;
        let left = x + level_sum(a.drop_last());
        assert(a[n].frame == b[n].frame);
        assert(same_nodes(a.drop_last(), b.drop_last())) by {
            assert forall|i: int| 0 <= i < n implies {
                &&& (#[trigger] a.drop_last()[i]).frame == b.drop_last()[i].frame
                &&& a.drop_last()[i].total_samples == b.drop_last()[i].total_samples
                &&& a.drop_last()[i].self_samples == b.drop_last()[i].self_samples
                &&& same_nodes(a.drop_last()[i].children@, b.drop_last()[i].children@)
            } by {
                assert(a.drop_last()[i] == a[i]);
            }
        }
        lemma_placed_same(a.drop_last(), b.drop_last(), depth, x);
        lemma_placed_same(a[n].children@, b[n].children@, depth + 1, left);
    }
}

/// The samples determine their left-heavy layout.
pub proof fn law_left_heavy_is_determined<T>(
    a: Seq<BrickModel>,
    b: Seq<BrickModel>,
    samples: Seq<SampleModel<T>>,
)
    requires
        is_left_heavy(a, samples),
        is_left_heavy(b, samples),
    ensures
        a == b,
{
    let s = choose|tree: CallTree| #[trigger]
        is_call_tree(tree, samples) && a == placed(tree.roots@, 1, 0);
    let t = choose|tree: CallTree| #[trigger]
        is_call_tree(tree, samples) && b == placed(tree.roots@, 1, 0);
    law_call_tree_is_determined(s, t, samples);
    lemma_placed_same(s.roots@, t.roots@, 1, 0);
}

/// Stacks are merged regardless of when they were sampled: two lists of samples with the
/// same stacks and weights, in whatever order and at whatever times, have the same
/// left-heavy layout.
pub proof fn law_left_heavy_ignores_order<S, T>(
    a: Seq<BrickModel>,
    b: Seq<BrickModel>,
    x: Seq<SampleModel<S>>,
    y: Seq<SampleModel<T>>,
)
    requires
        is_left_heavy(a, x),
        is_left_heavy(b, y),
        weighted_stacks(x) == weighted_stacks(y),
    ensures
        a == b,
{
    let tree = choose|tree: CallTree| #[trigger]
        is_call_tree(tree, x) && a == placed(tree.roots@, 1, 0);
    lemma_call_tree_ignores_order(tree, x, y);
    law_left_heavy_is_determined(a, b, y);
}

// ---------------------------------------------------------------------------
// The bricks that `left_heavy` gives
// ---------------------------------------------------------------------------

/// The events of the first `n` of the siblings.
pub open spec fn events_left_of(nodes: Seq<CallNode>, n: int) -> int {
    nodes.take(n).fold_left(0int, |sum: int, node: CallNode| sum + node.total_samples)
}

/// The events to the left of the node at the end of `path`: those of the heavier
/// siblings of each node on the way.
pub open spec fn left_edge(nodes: Seq<CallNode>, path: Seq<FrameId>) -> int
    decreases path.len(),
{
    if path.len() == 0 {
        0
    } else {
        let i = choose|i: int| 0 <= i < nodes.len() && (#[trigger] nodes[i]).frame == path[0];
        events_left_of(nodes, i) + left_edge(nodes[i].children@, path.skip(1))
    }
}

proof fn lemma_events_left_of(nodes: Seq<CallNode>)
    ensures
        level_sum(nodes) == nodes.fold_left(
            0int,
            |sum: int, node: CallNode| sum + node.total_samples,
        ),
    decreases nodes.len(),
{
    if nodes.len() > 0 {
        lemma_events_left_of(nodes.drop_last());
    }
}

/// The bricks of a node and of what is below it.
spec fn placed_node(node: CallNode, depth: int, x: int) -> Seq<BrickModel> {
    placed(node.children@, depth + 1, x).push(node_brick(node, depth, x))
}

/// Where, among the bricks of siblings, those of one of them stand.
proof fn lemma_placed_at(nodes: Seq<CallNode>, depth: int, x: int, i: int) -> (o: int)
    requires
        0 <= i < nodes.len(),
    ensures
        ({
            let part = placed_node(nodes[i], depth, x + events_left_of(nodes, i));
            &&& 0 <= o
            &&& o + part.len() <= placed(nodes, depth, x).len()
            &&& forall|k: int|
                0 <= k < part.len() ==> placed(nodes, depth, x)[o + k] == #[trigger] part[k]
        }),
    decreases nodes.len(),
{
    let rest = nodes.drop_last();
    let n = nodes.len() - 1;
    let left = x + level_sum(rest);
    lemma_events_left_of(rest);
    assert(nodes.take(n) =~= rest);
    let before = placed(rest, depth, x);
    let last = placed_node(nodes[n], depth, left);
    assert(placed(nodes, depth, x) =~= before + last);
    if i == n {
        before.len() as int
    } else {
        assert(rest.take(i) =~= nodes.take(i));
        let o = lemma_placed_at(rest, depth, x, i);
        let part = placed_node(nodes[i], depth, x + events_left_of(nodes, i));
        assert forall|k: int| 0 <= k < part.len() implies placed(nodes, depth, x)[o + k]
            == #[trigger] part[k] by {
            assert(before[o + k] == part[k]);
        }
        o
    }
}

/// Which of the siblings a brick belongs to, and where it stands among its bricks.
proof fn lemma_placed_of(nodes: Seq<CallNode>, depth: int, x: int, c: int) -> (r: (int, int))
    requires
        0 <= c < placed(nodes, depth, x).len(),
    ensures
        0 <= r.0 < nodes.len(),
        0 <= r.1 < placed_node(nodes[r.0], depth, x + events_left_of(nodes, r.0)).len(),
        placed(nodes, depth, x)[c] == placed_node(
            nodes[r.0],
            depth,
            x + events_left_of(nodes, r.0),
        )[r.1],
    decreases nodes.len(),
{
    let rest = nodes.drop_last();
    let n = nodes.len() - 1;
    let left = x + level_sum(rest);
    lemma_events_left_of(rest);
    assert(nodes.take(n) =~= rest);
    let before = placed(rest, depth, x);
    let last = placed_node(nodes[n], depth, left);
    assert(placed(nodes, depth, x) =~= before + last);
    if c < before.len() {
        let r = lemma_placed_of(rest, depth, x, c);
        assert(rest.take(r.0) =~= nodes.take(r.0));
        r
    } else {
        (n, c - before.len())
    }
}

/// The brick stands for the path `rest`, which starts among `nodes`.
spec fn stands_for(
    b: BrickModel,
    nodes: Seq<CallNode>,
    depth: int,
    x: int,
    rest: Seq<FrameId>,
) -> bool {
    &&& rest.len() > 0
    &&& b.depth == depth + rest.len() - 1
    &&& b.frame == rest.last()
    &&& b.start == x + left_edge(nodes, rest)
}

/// Every path that occurs has its brick.
proof fn lemma_path_is_placed<T>(
    nodes: Seq<CallNode>,
    samples: Seq<SampleModel<T>>,
    path: Seq<FrameId>,
    depth: int,
    x: int,
    rest: Seq<FrameId>,
) -> (c: int)
    requires
        is_level(nodes, samples, path),
        rest.len() > 0,
        occurs(samples, path + rest),
    ensures
        0 <= c < placed(nodes, depth, x).len(),
        stands_for(placed(nodes, depth, x)[c], nodes, depth, x, rest),
        placed(nodes, depth, x)[c].width == through(samples, path + rest),
        placed(nodes, depth, x)[c].samples == through(samples, path + rest),
    decreases rest.len(),
{
    let first = path.push(rest[0]);
    assert(occurs(samples, first)) by {
        let k = choose|k: int|
            0 <= k < samples.len() && passes(#[trigger] samples[k], path + rest);
        let p = call_path(samples[k]);
        assert(p.take(first.len() as int) =~= first) by {
            assert forall|d: int| 0 <= d < first.len() implies p[d] == first[d] by {
                assert(p.take((path + rest).len() as int)[d] == (path + rest)[d]);
            }
        }
        assert(passes(samples[k], first));
    }
    assert(has_frame(nodes, rest[0]));
    let i = choose|i: int| 0 <= i < nodes.len() && (#[trigger] nodes[i]).frame == rest[0];
    assert(is_node(nodes[i], samples, path));
    let left = x + events_left_of(nodes, i);
    let part = placed_node(nodes[i], depth, left);
    let o = lemma_placed_at(nodes, depth, x, i);
    let more = rest.skip(1);
    if more.len() == 0 {
        assert(path + rest =~= first);
        assert(part[part.len() - 1] == node_brick(nodes[i], depth, left));
        assert(left_edge(nodes[i].children@, more) == 0);
        o + part.len() - 1
    } else {
        assert(first + more =~= path + rest);
        assert(more.last() == rest.last());
        let c = lemma_path_is_placed(
            nodes[i].children@,
            samples,
            first,
            depth + 1,
            left,
            more,
        );
        assert(part[c] == placed(nodes[i].children@, depth + 1, left)[c]);
        o + c
    }
}

/// Every brick is that of a path that occurs.
proof fn lemma_placed_path<T>(
    nodes: Seq<CallNode>,
    samples: Seq<SampleModel<T>>,
    path: Seq<FrameId>,
    depth: int,
    x: int,
    c: int,
) -> (rest: Seq<FrameId>)
    requires
        is_level(nodes, samples, path),
        0 <= c < placed(nodes, depth, x).len(),
    ensures
        stands_for(placed(nodes, depth, x)[c], nodes, depth, x, rest),
        occurs(samples, path + rest),
        placed(nodes, depth, x)[c].width == through(samples, path + rest),
        placed(nodes, depth, x)[c].samples == through(samples, path + rest),
    decreases nodes,
{
    let (i, q) = lemma_placed_of(nodes, depth, x, c);
    assert(is_node(nodes[i], samples, path));
    let frame = nodes[i].frame;
    let first = path.push(frame);
    assert(has_frame(nodes, frame));
    let j = choose|j: int| 0 <= j < nodes.len() && (#[trigger] nodes[j]).frame == frame;
    if i < j {
        assert(nodes[i].frame != nodes[j].frame);
    } else if j < i {
        assert(nodes[j].frame != nodes[i].frame);
    }
    let left = x + events_left_of(nodes, i);
    let part = placed_node(nodes[i], depth, left);
    if q == part.len() - 1 {
        let rest = seq![frame];
        assert(path + rest =~= first);
        assert(rest.skip(1).len() == 0);
        assert(left_edge(nodes[i].children@, rest.skip(1)) == 0);
        rest
    } else {
        let more = lemma_placed_path(
            nodes[i].children@,
            samples,
            first,
            depth + 1,
            left,
            q,
        );
        let rest = seq![frame] + more;
        assert(rest.skip(1) =~= more);
        assert(first + more =~= path + rest);
        assert(rest.last() == more.last());
        assert(part[q] == placed(nodes[i].children@, depth + 1, left)[q]);
        rest
    }
}

/// Every call path that was sampled has a brick: in the row of its length, with its last
/// frame, as wide as the events of all samples whose stacks lead through it, and right of
/// everything that is listed before it or before a node on the way to it.
pub proof fn law_left_heavy_draws_every_path<T>(
    thread: Thread<T>,
    tree: CallTree,
    bricks: Seq<Brick>,
    path: Seq<FrameId>,
    k: int,
) -> (c: int)
    requires
        is_left_heavy(brick_models(bricks), thread@.samples),
        is_call_tree(tree, thread@.samples),
        path.len() > 0,
        0 <= k < thread.samples@.len(),
        stack_starts(thread.samples@[k].stack@, path),
    ensures
        0 <= c < bricks.len(),
        bricks[c].depth == path.len(),
        bricks[c].frame == path.last(),
        bricks[c].start == left_edge(tree.roots@, path),
        bricks[c].width == events_through(thread.samples@, path),
        bricks[c].samples == events_through(thread.samples@, path),
{
    let all = thread@.samples;
    let placed_bricks = placed(tree.roots@, 1, 0);
    assert(is_left_heavy(placed_bricks, all));
    law_left_heavy_is_determined(brick_models(bricks), placed_bricks, all);
    assert(all[k] == thread.samples@[k]@);
    lemma_stack_starts(all[k], path);
    assert(passes(all[k], path));
    assert(Seq::<FrameId>::empty() + path =~= path);
    assert(occurs(all, path));
    let c = lemma_path_is_placed(tree.roots@, all, Seq::empty(), 1, 0, path);
    lemma_events_through(thread.samples@, all, path);
    assert(bricks[c]@ == brick_models(bricks)[c]);
    c
}

/// Every brick is that of a call path that was sampled.
pub proof fn law_left_heavy_draws_only_paths<T>(
    thread: Thread<T>,
    tree: CallTree,
    bricks: Seq<Brick>,
    c: int,
) -> (r: (Seq<FrameId>, int))
    requires
        is_left_heavy(brick_models(bricks), thread@.samples),
        is_call_tree(tree, thread@.samples),
        0 <= c < bricks.len(),
    ensures
        r.0.len() > 0,
        0 <= r.1 < thread.samples@.len(),
        stack_starts(thread.samples@[r.1].stack@, r.0),
        bricks[c].depth == r.0.len(),
        bricks[c].frame == r.0.last(),
        bricks[c].start == left_edge(tree.roots@, r.0),
        bricks[c].width == events_through(thread.samples@, r.0),
        bricks[c].samples == events_through(thread.samples@, r.0),
{
    let all = thread@.samples;
    let placed_bricks = placed(tree.roots@, 1, 0);
    assert(is_left_heavy(placed_bricks, all));
    law_left_heavy_is_determined(brick_models(bricks), placed_bricks, all);
    assert(bricks[c]@ == brick_models(bricks)[c]);
    let path = lemma_placed_path(tree.roots@, all, Seq::empty(), 1, 0, c);
    assert(Seq::<FrameId>::empty() + path =~= path);
    lemma_events_through(thread.samples@, all, path);
    let k = choose|k: int| 0 <= k < all.len() && passes(#[trigger] all[k], path);
    assert(all[k] == thread.samples@[k]@);
    lemma_stack_starts(all[k], path);
    (path, k)
}

} // verus!
