//! The top-down call tree: samples merged by call path.

use crate::flame::layout::{
    call_path, chart, deep_sum, law_paths_account_for_samples, passes, path_sum, through,
};
use crate::profile::{
    lemma_weight_sum_grows, sample_models, weight_sum, FrameId, Sample, SampleModel, Thread,
};
use crate::sort::{in_order, lemma_same_values, sort, Ranked};
use std::collections::HashMap;
use vstd::multiset::Multiset;
use vstd::prelude::*;

verus! {

/// A node of the call tree, aggregating samples by call path (root first): every
/// occurrence of the same path is merged regardless of when it was sampled.
#[derive(Debug, PartialEq, Eq)]
pub struct CallNode {
    /// Interned frame; resolve against the owning thread's frame table.
    pub frame: FrameId,
    /// Events whose stack passes through this node (its inclusive weight).
    pub total_samples: u64,
    /// Events for which this node is the leaf (its exclusive weight).
    pub self_samples: u64,
    /// Child call paths, ordered by descending event weight.
    pub children: Vec<CallNode>,
}

/// The aggregated call tree of a thread.
#[derive(Debug, PartialEq, Eq)]
pub struct CallTree {
    /// Distinct root frames.
    pub roots: Vec<CallNode>,
    /// Total events of the thread: the denominator for percentages.
    pub total_samples: u64,
}

impl Default for CallTree {
    /// The tree without nodes.
    fn default() -> (r: Self)
        ensures
            r.roots@ == Seq::<CallNode>::empty(),
            r.total_samples == 0,
    {
        CallTree { roots: Vec::new(), total_samples: 0 }
    }
}

// ---------------------------------------------------------------------------
// What a call tree is
// ---------------------------------------------------------------------------

/// The events of the samples whose stack is `path`.
pub open spec fn ending<T>(samples: Seq<SampleModel<T>>, path: Seq<FrameId>) -> nat
    decreases samples.len(),
{
    if samples.len() == 0 {
        0
    } else {
        ending(samples.drop_last(), path) + if call_path(samples.last()) == path {
            samples.last().weight as nat
        } else {
            0
        }
    }
}

/// Some sample's stack starts with `path`.
pub open spec fn occurs<T>(samples: Seq<SampleModel<T>>, path: Seq<FrameId>) -> bool {
    exists|i: int| 0 <= i < samples.len() && passes(#[trigger] samples[i], path)
}

/// Siblings are listed by descending inclusive weight, ties by ascending frame id.
pub open spec fn listed_before(a: CallNode, b: CallNode) -> bool {
    a.total_samples > b.total_samples || (a.total_samples == b.total_samples && a.frame < b.frame)
}

/// Some node of the list has the frame `f`.
pub open spec fn has_frame(nodes: Seq<CallNode>, f: FrameId) -> bool {
    exists|i: int| 0 <= i < nodes.len() && (#[trigger] nodes[i]).frame == f
}

/// The nodes are those below `path`: one for each frame that follows `path` in
/// some sample, in order, each with its events and its own children.
pub open spec fn is_level<T>(
    nodes: Seq<CallNode>,
    samples: Seq<SampleModel<T>>,
    path: Seq<FrameId>,
) -> bool
    decreases nodes,
{
    &&& forall|i: int, j: int|
        0 <= i < j < nodes.len() ==> listed_before(#[trigger] nodes[i], #[trigger] nodes[j])
            && nodes[i].frame != nodes[j].frame
    &&& forall|f: FrameId| #[trigger] has_frame(nodes, f) <==> occurs(samples, path.push(f))
    &&& forall|i: int| 0 <= i < nodes.len() ==> is_node(#[trigger] nodes[i], samples, path)
}

/// The node stands for the path that its frame makes after `path`.
pub open spec fn is_node<T>(
    node: CallNode,
    samples: Seq<SampleModel<T>>,
    path: Seq<FrameId>,
) -> bool
    decreases node,
{
    &&& node.total_samples == through(samples, path.push(node.frame))
    &&& node.self_samples == ending(samples, path.push(node.frame))
    &&& is_level(node.children@, samples, path.push(node.frame))
}

/// The call tree of `samples`.
pub open spec fn is_call_tree<T>(tree: CallTree, samples: Seq<SampleModel<T>>) -> bool {
    &&& is_level(tree.roots@, samples, Seq::empty())
    &&& tree.total_samples == weight_sum(samples)
}

// ---------------------------------------------------------------------------
// Building the tree
// ---------------------------------------------------------------------------

/// The nodes right below a path, by index: in the order of their appearance, and by
/// frame.
struct Level {
    list: Vec<usize>,
    index: HashMap<FrameId, usize>,
}

/// What a [`Level`] holds.
#[verifier::ext_equal]
struct LevelModel {
    list: Seq<usize>,
    index: Map<FrameId, usize>,
}

impl View for Level {
    type V = LevelModel;

    closed spec fn view(&self) -> LevelModel {
        LevelModel { list: self.list@, index: self.index@ }
    }
}

/// The level without nodes.
spec fn no_level() -> LevelModel {
    LevelModel { list: Seq::empty(), index: Map::empty() }
}

/// The level with one more node.
spec fn gained(level: LevelModel, frame: FrameId, id: usize) -> LevelModel {
    LevelModel { list: level.list.push(id), index: level.index.insert(frame, id) }
}

impl Level {
    fn new() -> (r: Self)
        ensures
            r@ == no_level(),
    {
        Level { list: Vec::new(), index: HashMap::new() }
    }

    /// The node with the given frame, if any.
    fn find(&self, frame: FrameId) -> (r: Option<usize>)
        ensures
            r == (if self@.index.contains_key(frame) {
                Some(self@.index[frame])
            } else {
                None
            }),
    {
        broadcast use vstd::std_specs::hash::group_hash_axioms;

        match self.index.get(&frame) {
            Some(c) => Some(*c),
            None => None,
        }
    }

    /// Adds a node.
    fn gain(&mut self, frame: FrameId, id: usize)
        ensures
            final(self)@ == gained(old(self)@, frame, id),
    {
        broadcast use vstd::std_specs::hash::group_hash_axioms;

        self.list.push(id);
        self.index.insert(frame, id);
    }
}

/// Node of the tree under construction; nodes refer to each other by index.
struct BuildNode {
    frame: FrameId,
    total: u64,
    self_count: u64,
    children: Level,
}

/// The level holds the indices of the nodes right below `path`, which all stand at
/// `lo` or after, and finds each by its frame.
spec fn lists_level(
    level: LevelModel,
    paths: Seq<Seq<FrameId>>,
    path: Seq<FrameId>,
    lo: int,
) -> bool {
    &&& level.list.no_duplicates()
    &&& forall|c: usize| #[trigger]
        level.list.contains(c) <==> (c as int) < paths.len() && paths[c as int].drop_last() == path
    &&& forall|k: int| 0 <= k < level.list.len() ==> lo <= #[trigger] level.list[k]
    &&& forall|f: FrameId| #[trigger]
        level.index.contains_key(f) ==> level.list.contains(level.index[f])
            && paths[level.index[f] as int].last() == f
    &&& forall|c: usize| #[trigger]
        level.list.contains(c) ==> level.index.contains_key(paths[c as int].last())
}

/// Each node stands for a path of its own, and lists the nodes right below it.
#[verifier::opaque]
spec fn shape_ok(arena: Seq<BuildNode>, roots: LevelModel, paths: Seq<Seq<FrameId>>) -> bool {
    &&& paths.len() == arena.len()
    &&& forall|i: int|
        0 <= i < paths.len() ==> (#[trigger] paths[i]).len() > 0 && paths[i].last()
            == arena[i].frame
    &&& paths.no_duplicates()
    &&& forall|i: int|
        0 <= i < paths.len() && (#[trigger] paths[i]).len() > 1 ==> paths.contains(
            paths[i].drop_last(),
        )
    &&& lists_level(roots, paths, Seq::empty(), 0)
    &&& forall|i: int|
        0 <= i < arena.len() ==> lists_level(
            (#[trigger] arena[i]).children@,
            paths,
            paths[i],
            i + 1,
        )
}

/// The events through `path` of the samples `done` and of the first `k` rows of
/// the sample `cur`.
spec fn counted<T>(
    done: Seq<SampleModel<T>>,
    cur: SampleModel<T>,
    k: int,
    path: Seq<FrameId>,
) -> nat {
    through(done, path) + if path.len() <= k && passes(cur, path) {
        cur.weight as nat
    } else {
        0
    }
}

/// The events that end at `path`, likewise.
spec fn ended<T>(
    done: Seq<SampleModel<T>>,
    cur: SampleModel<T>,
    k: int,
    path: Seq<FrameId>,
) -> nat {
    ending(done, path) + if path.len() <= k && call_path(cur) == path {
        cur.weight as nat
    } else {
        0
    }
}

/// `path` occurs in the samples `done` or in the first `k` rows of `cur`.
spec fn reached<T>(
    done: Seq<SampleModel<T>>,
    cur: SampleModel<T>,
    k: int,
    path: Seq<FrameId>,
) -> bool {
    occurs(done, path) || (path.len() <= k && passes(cur, path))
}

/// The nodes are those of the paths reached, and hold their events.
#[verifier::opaque]
spec fn counts_ok<T>(
    arena: Seq<BuildNode>,
    paths: Seq<Seq<FrameId>>,
    done: Seq<SampleModel<T>>,
    cur: SampleModel<T>,
    k: int,
) -> bool {
    &&& paths.len() == arena.len()
    &&& forall|i: int|
        0 <= i < arena.len() ==> (#[trigger] arena[i]).total == counted(done, cur, k, paths[i])
            && arena[i].self_count == ended(done, cur, k, paths[i])
    &&& forall|p: Seq<FrameId>|
        p.len() > 0 ==> (#[trigger] paths.contains(p) <==> reached(done, cur, k, p))
}

/// A path that does not occur carries no events.
proof fn lemma_absent<T>(samples: Seq<SampleModel<T>>, path: Seq<FrameId>)
    requires
        !occurs(samples, path),
    ensures
        through(samples, path) == 0,
        ending(samples, path) == 0,
    decreases samples.len(),
{
    if samples.len() > 0 {
        let rest = samples.drop_last();
        assert(!passes(samples[samples.len() - 1], path));
        assert(call_path(samples.last()).take(call_path(samples.last()).len() as int) =~= call_path(
            samples.last(),
        ));
        assert forall|i: int| 0 <= i < rest.len() implies !passes(#[trigger] rest[i], path) by {
            assert(rest[i] == samples[i]);
        }
        lemma_absent(rest, path);
    }
}

/// No path carries more events than there are, and none ends more than it carries.
pub proof fn lemma_through_bounded<T>(samples: Seq<SampleModel<T>>, path: Seq<FrameId>)
    ensures
        ending(samples, path) <= through(samples, path) <= weight_sum(samples),
    decreases samples.len(),
{
    if samples.len() > 0 {
        lemma_through_bounded(samples.drop_last(), path);
        let p = call_path(samples.last());
        assert(p.take(p.len() as int) =~= p);
    }
}

/// A sample that was counted down to its leaf is done.
proof fn lemma_counted_all<T>(
    done: Seq<SampleModel<T>>,
    cur: SampleModel<T>,
    next: SampleModel<T>,
    path: Seq<FrameId>,
)
    requires
        path.len() > 0,
    ensures
        counted(done, cur, cur.stack.len() as int, path) == counted(done.push(cur), next, 0, path),
        ended(done, cur, cur.stack.len() as int, path) == ended(done.push(cur), next, 0, path),
        reached(done, cur, cur.stack.len() as int, path) == reached(done.push(cur), next, 0, path),
{
    let all = done.push(cur);
    assert(all.drop_last() =~= done);
    assert(call_path(cur).len() == cur.stack.len());
    if occurs(done, path) {
        let i = choose|i: int| 0 <= i < done.len() && passes(#[trigger] done[i], path);
        assert(passes(all[i], path));
    }
    if passes(cur, path) {
        assert(passes(all[done.len() as int], path));
    }
    if occurs(all, path) {
        let i = choose|i: int| 0 <= i < all.len() && passes(#[trigger] all[i], path);
        if i < done.len() {
            assert(passes(done[i], path));
        }
    }
}

/// Appends a node without events.
fn push_node(arena: &mut Vec<BuildNode>, frame: FrameId) -> (i: usize)
    ensures
        i == old(arena)@.len(),
        final(arena)@.len() == old(arena)@.len() + 1,
        final(arena)@.take(i as int) == old(arena)@,
        final(arena)@[i as int].frame == frame,
        final(arena)@[i as int].total == 0,
        final(arena)@[i as int].self_count == 0,
        final(arena)@[i as int].children@ == no_level(),
{
    let i = arena.len();
    arena.push(BuildNode { frame, total: 0, self_count: 0, children: Level::new() });
    assert(arena@.take(i as int) =~= old(arena)@);
    i
}

/// A level whose path gains no node stays as it is.
proof fn lemma_level_stays(
    level: LevelModel,
    paths: Seq<Seq<FrameId>>,
    q: Seq<FrameId>,
    lo: int,
    added: Seq<FrameId>,
)
    requires
        lists_level(level, paths, q, lo),
        added.drop_last() != q,
    ensures
        lists_level(level, paths.push(added), q, lo),
{
    let list = level.list;
    let more = paths.push(added);
    assert forall|c: usize| #[trigger] list.contains(c) <==> (c as int) < more.len()
        && more[c as int].drop_last() == q by {
        if (c as int) < paths.len() {
            assert(more[c as int] == paths[c as int]);
        }
    }
}

/// A level whose path gains the last node gains its index.
proof fn lemma_level_gains(
    level: LevelModel,
    paths: Seq<Seq<FrameId>>,
    q: Seq<FrameId>,
    lo: int,
    added: Seq<FrameId>,
)
    requires
        lists_level(level, paths, q, lo),
        added.drop_last() == q,
        lo <= paths.len() <= usize::MAX,
    ensures
        lists_level(gained(level, added.last(), paths.len() as usize), paths.push(added), q, lo),
{
    let id = paths.len() as usize;
    let list = level.list;
    let longer = list.push(id);
    let more = paths.push(added);
    assert forall|c: usize| #[trigger] longer.contains(c) <==> (c as int) < more.len()
        && more[c as int].drop_last() == q by {
        if c == id {
            assert(longer[list.len() as int] == c);
        } else {
            if longer.contains(c) {
                let k = choose|k: int| 0 <= k < longer.len() && longer[k] == c;
                assert(list[k] == c);
                assert(list.contains(c));
            }
            if list.contains(c) {
                let k = choose|k: int| 0 <= k < list.len() && list[k] == c;
                assert(longer[k] == c);
            }
            if (c as int) < paths.len() {
                assert(more[c as int] == paths[c as int]);
            }
        }
    }
    assert(longer.no_duplicates()) by {
        assert forall|i: int, j: int|
            0 <= i < longer.len() && 0 <= j < longer.len() && i != j implies longer[i]
            != longer[j] by {
            if i == list.len() {
                assert(list.contains(list[j]));
            } else if j == list.len() {
                assert(list.contains(list[i]));
            }
        }
    }
    assert(longer.contains(id)) by {
        assert(longer[list.len() as int] == id);
    }
    let wider = gained(level, added.last(), id);
    assert forall|f: FrameId| #[trigger] wider.index.contains_key(f) implies longer.contains(
        wider.index[f],
    ) && more[wider.index[f] as int].last() == f by {
        if f != added.last() {
            assert(level.index.contains_key(f));
            let c = level.index[f];
            assert(list.contains(c));
            assert(more[c as int] == paths[c as int]);
        }
    }
    assert forall|c: usize| #[trigger] longer.contains(c) implies wider.index.contains_key(
        more[c as int].last(),
    ) by {
        if c != id {
            assert(more[c as int] == paths[c as int]);
            assert(list.contains(c));
        }
    }
}

/// The shape stays right when a node for the new path `path.push(frame)` was
/// appended and listed below `path`.
proof fn lemma_shape_grows(
    before: Seq<BuildNode>,
    roots0: LevelModel,
    paths0: Seq<Seq<FrameId>>,
    after: Seq<BuildNode>,
    roots: LevelModel,
    path: Seq<FrameId>,
    frame: FrameId,
)
    requires
        shape_ok(before, roots0, paths0),
        !paths0.contains(path.push(frame)),
        before.len() <= usize::MAX,
        after.len() == before.len() + 1,
        after.last().frame == frame,
        after.last().children@ == no_level(),
        forall|i: int|
            0 <= i < before.len() ==> (#[trigger] after[i]).frame == before[i].frame
                && after[i].children@ == (if paths0[i] == path {
                gained(before[i].children@, frame, before.len() as usize)
            } else {
                before[i].children@
            }),
        path.len() == 0 ==> roots == gained(roots0, frame, before.len() as usize),
        path.len() > 0 ==> roots == roots0 && paths0.contains(path),
    ensures
        shape_ok(after, roots, paths0.push(path.push(frame))),
{
    reveal(shape_ok);
    let m = before.len() as int;
    let added = path.push(frame);
    let paths = paths0.push(added);
    assert(added.drop_last() =~= path);
    assert(paths.no_duplicates()) by {
        assert forall|i: int, j: int| 0 <= i < paths.len() && 0 <= j < paths.len() && i != j implies
            paths[i] != paths[j] by {
            if i == m {
                assert(paths0.contains(paths0[j]));
            } else if j == m {
                assert(paths0.contains(paths0[i]));
            }
        }
    }
    assert forall|i: int| 0 <= i < paths.len() && (#[trigger] paths[i]).len() > 1 implies paths.contains(
        paths[i].drop_last(),
    ) by {
        let q = paths[i].drop_last();
        if i < m {
            assert(paths0[i] == paths[i]);
        }
        assert(paths0.contains(q));
        let k = choose|k: int| 0 <= k < paths0.len() && paths0[k] == q;
        assert(paths[k] == q);
    }
    if path.len() == 0 {
        assert(path =~= Seq::<FrameId>::empty());
        lemma_level_gains(roots0, paths0, path, 0, added);
    } else {
        lemma_level_stays(roots0, paths0, Seq::empty(), 0, added);
    }
    assert forall|i: int| 0 <= i < after.len() implies lists_level(
        (#[trigger] after[i]).children@,
        paths,
        paths[i],
        i + 1,
    ) by {
        if i < m {
            assert(lists_level(before[i].children@, paths0, paths0[i], i + 1));
            assert(paths[i] == paths0[i]);
            if paths0[i] == path {
                lemma_level_gains(before[i].children@, paths0, path, i + 1, added);
            } else {
                lemma_level_stays(before[i].children@, paths0, paths0[i], i + 1, added);
            }
        } else {
            assert forall|c: usize| (c as int) < paths.len() implies paths[c as int].drop_last()
                != paths[m] by {
                // Nothing stands below a path that is new.
                if (c as int) < m {
                    if paths0[c as int].drop_last() == added {
                        assert(paths0[c as int].len() > 1);
                        assert(paths0.contains(added));
                    }
                } else {
                    assert(added.drop_last().len() != added.len());
                }
            }
        }
    }
    assert forall|i: int| 0 <= i < paths.len() implies (#[trigger] paths[i]).len() > 0
        && paths[i].last() == after[i].frame by {
        if i < m {
            assert(paths[i] == paths0[i]);
        }
    }
}

/// The node below `parent`, or among the roots, that has the given frame; it is
/// appended where there is none.
fn find_or_insert(
    arena: &mut Vec<BuildNode>,
    roots: &mut Level,
    parent: Option<usize>,
    frame: FrameId,
    Ghost(paths): Ghost<Seq<Seq<FrameId>>>,
    Ghost(path): Ghost<Seq<FrameId>>,
) -> (r: (usize, Ghost<Seq<Seq<FrameId>>>))
    requires
        shape_ok(old(arena)@, old(roots)@, paths),
        (match parent {
            Some(p) => (p as int) < paths.len() && paths[p as int] == path,
            None => path.len() == 0,
        }),
    ensures
        shape_ok(final(arena)@, final(roots)@, r.1@),
        (r.0 as int) < r.1@.len(),
        r.1@[r.0 as int] == path.push(frame),
        paths.contains(path.push(frame)) ==> r.1@ == paths,
        !paths.contains(path.push(frame)) ==> r.1@ == paths.push(path.push(frame)),
        forall|i: int|
            0 <= i < paths.len() ==> (#[trigger] final(arena)@[i]).total == old(arena)@[i].total
                && final(arena)@[i].self_count == old(arena)@[i].self_count,
        forall|i: int|
            paths.len() <= i < final(arena)@.len() ==> (#[trigger] final(arena)@[i]).total == 0
                && final(arena)@[i].self_count == 0,
{
    proof {
        reveal(shape_ok);
    }
    let ghost added = path.push(frame);
    assert(added.drop_last() =~= path);
    let found = match parent {
        Some(p) => arena[p].children.find(frame),
        None => roots.find(frame),
    };
    let count = arena.len();
    if let Some(c) = found {
        proof {
            if parent is None {
                assert(path =~= Seq::<FrameId>::empty());
            }
            assert(paths[c as int].drop_last() == path);
            assert(paths[c as int] =~= added);
            assert(paths.contains(added));
        }
        return (c, Ghost(paths));
    }
    proof {
        if paths.contains(added) {
            let c = choose|c: int| 0 <= c < paths.len() && paths[c] == added;
            assert(c < count);
            assert(paths[c as usize as int].drop_last() == path);
            if parent is None {
                assert(path =~= Seq::<FrameId>::empty());
                assert(roots@.list.contains(c as usize));
            } else {
                assert(arena@[parent->0 as int].children@.list.contains(c as usize));
            }
            assert(false);
        }
    }
    let ghost before = arena@;
    let ghost roots0 = roots@;
    let i = push_node(arena, frame);
    let ghost pushed = arena@;
    assert forall|k: int| 0 <= k < before.len() implies #[trigger] pushed[k] == before[k] by {
        assert(pushed.take(i as int)[k] == before[k]);
    }
    match parent {
        Some(p) => {
            arena[p].children.gain(frame, i);
        },
        None => {
            roots.gain(frame, i);
        },
    }
    proof {
        assert forall|k: int| 0 <= k < before.len() implies (#[trigger] arena@[k]).frame
            == before[k].frame && arena@[k].children@ == (if paths[k] == path {
            gained(before[k].children@, frame, before.len() as usize)
        } else {
            before[k].children@
        }) by {
            assert(pushed[k] == before[k]);
        }
        lemma_shape_grows(before, roots0, paths, arena@, roots@, path, frame);
    }
    (i, Ghost(paths.push(added)))
}

/// The node of the next row of `cur` holds the events of the samples done.
proof fn lemma_found<T>(
    before: Seq<BuildNode>,
    mid: Seq<BuildNode>,
    known0: Seq<Seq<FrameId>>,
    known: Seq<Seq<FrameId>>,
    done: Seq<SampleModel<T>>,
    cur: SampleModel<T>,
    k: int,
    idx: int,
)
    requires
        counts_ok(before, known0, done, cur, k),
        mid.len() == known.len(),
        0 <= idx < known.len(),
        known[idx].len() == k + 1,
        k >= 0,
        known0.contains(known[idx]) ==> known == known0,
        !known0.contains(known[idx]) ==> known == known0.push(known[idx]),
        known.no_duplicates(),
        forall|i: int|
            0 <= i < known0.len() ==> (#[trigger] mid[i]).total == before[i].total
                && mid[i].self_count == before[i].self_count,
        forall|i: int|
            known0.len() <= i < mid.len() ==> (#[trigger] mid[i]).total == 0 && mid[i].self_count
                == 0,
    ensures
        mid[idx].total == through(done, known[idx]),
        mid[idx].self_count == ending(done, known[idx]),
        ending(done, known[idx]) <= through(done, known[idx]) <= weight_sum(done),
{
    reveal(counts_ok);
    let longer = known[idx];
    lemma_through_bounded(done, longer);
    if known0.contains(longer) {
        assert(mid[idx].total == before[idx].total);
    } else {
        assert(!reached(done, cur, k, longer));
        lemma_absent(done, longer);
        if idx < known0.len() {
            assert(known0[idx] == longer);
        }
        assert(mid[idx].total == 0);
    }
}

/// Counting the next row of `cur` at its node counts it.
proof fn lemma_counts_step<T>(
    before: Seq<BuildNode>,
    mid: Seq<BuildNode>,
    after: Seq<BuildNode>,
    known0: Seq<Seq<FrameId>>,
    known: Seq<Seq<FrameId>>,
    done: Seq<SampleModel<T>>,
    cur: SampleModel<T>,
    k: int,
    idx: int,
)
    requires
        counts_ok(before, known0, done, cur, k),
        0 <= k < cur.stack.len(),
        mid.len() == known.len() == after.len(),
        0 <= idx < known.len(),
        known[idx] == call_path(cur).take(k + 1),
        known0.contains(known[idx]) ==> known == known0,
        !known0.contains(known[idx]) ==> known == known0.push(known[idx]),
        known.no_duplicates(),
        forall|i: int|
            0 <= i < known0.len() ==> (#[trigger] mid[i]).total == before[i].total
                && mid[i].self_count == before[i].self_count,
        forall|i: int| 0 <= i < after.len() && i != idx ==> #[trigger] after[i] == mid[i],
        after[idx].total == through(done, known[idx]) + cur.weight,
        after[idx].self_count == ending(done, known[idx]) + (if k == cur.stack.len() - 1 {
            cur.weight as nat
        } else {
            0
        }),
    ensures
        counts_ok(after, known, done, cur, k + 1),
{
    reveal(counts_ok);
    let whole = call_path(cur);
    let longer = known[idx];
    assert(whole.len() == cur.stack.len());
    assert(whole.take(whole.len() as int) =~= whole);
    assert forall|i: int| 0 <= i < after.len() implies (#[trigger] after[i]).total == counted(
        done,
        cur,
        k + 1,
        known[i],
    ) && after[i].self_count == ended(done, cur, k + 1, known[i]) by {
        if i == idx {
            assert(whole == longer <==> k == cur.stack.len() - 1);
        } else {
            assert(known[i] != longer);
            assert(i < known0.len());
            assert(known0[i] == known[i]);
            assert(after[i] == mid[i]);
            assert(before[i].total == counted(done, cur, k, known0[i]));
            if known[i].len() == k + 1 && passes(cur, known[i]) {
                assert(whole.take(k + 1) == known[i]);
            }
            if known[i].len() == k + 1 && whole == known[i] {
                assert(whole.take(k + 1) =~= known[i]);
            }
        }
    }
    assert forall|p: Seq<FrameId>| p.len() > 0 implies (#[trigger] known.contains(p) <==> reached(
        done,
        cur,
        k + 1,
        p,
    )) by {
        if p == longer {
            assert(known[idx] == longer);
        } else {
            if p.len() == k + 1 && passes(cur, p) {
                assert(whole.take(k + 1) == p);
            }
            if known0.contains(p) {
                let i = choose|i: int| 0 <= i < known0.len() && known0[i] == p;
                assert(known[i] == p);
            }
            if known.contains(p) {
                let i = choose|i: int| 0 <= i < known.len() && known[i] == p;
                assert(i < known0.len());
                assert(known0[i] == p);
            }
            assert(known.contains(p) <==> known0.contains(p));
        }
    }
}

/// There is a node for every path, and no path twice.
proof fn lemma_shape(arena: Seq<BuildNode>, roots: LevelModel, paths: Seq<Seq<FrameId>>)
    requires
        shape_ok(arena, roots, paths),
    ensures
        paths.len() == arena.len(),
        paths.no_duplicates(),
{
    reveal(shape_ok);
}

/// Adds the events of one sample to the nodes along its path.
fn add_sample<T>(
    arena: &mut Vec<BuildNode>,
    roots: &mut Level,
    stack: &Vec<FrameId>,
    weight: u64,
    Ghost(paths): Ghost<Seq<Seq<FrameId>>>,
    Ghost(done): Ghost<Seq<SampleModel<T>>>,
    Ghost(cur): Ghost<SampleModel<T>>,
) -> (r: Ghost<Seq<Seq<FrameId>>>)
    requires
        shape_ok(old(arena)@, old(roots)@, paths),
        counts_ok(old(arena)@, paths, done, cur, 0),
        stack@ == cur.stack,
        weight == cur.weight,
        weight_sum(done) + weight <= u64::MAX,
    ensures
        shape_ok(final(arena)@, final(roots)@, r@),
        counts_ok(final(arena)@, r@, done, cur, cur.stack.len() as int),
{
    let n = stack.len();
    let ghost whole = call_path(cur);
    let ghost mut known = paths;
    let mut parent: Option<usize> = None;
    for k in 0..n
        invariant
            n == stack@.len(),
            stack@ == cur.stack,
            weight == cur.weight,
            weight_sum(done) + weight <= u64::MAX,
            whole == call_path(cur),
            whole.len() == n,
            shape_ok(arena@, roots@, known),
            counts_ok(arena@, known, done, cur, k as int),
            (match parent {
                Some(p) => k > 0 && (p as int) < known.len() && known[p as int] == whole.take(
                    k as int,
                ),
                None => k == 0,
            }),
    {
        // Walk root first: the root is the last element of a leaf-first stack.
        let id = stack[n - 1 - k];
        let ghost path = whole.take(k as int);
        let ghost longer = whole.take(k + 1);
        let ghost before = arena@;
        let ghost roots0 = roots@;
        let ghost known0 = known;
        proof {
            assert(id == whole[k as int]);
            assert(longer =~= path.push(id));
        }
        let (idx, grown) = find_or_insert(
            arena,
            roots,
            parent,
            id,
            Ghost(known),
            Ghost(path),
        );
        let ghost mid = arena@;
        proof {
            known = grown@;
            lemma_shape(before, roots0, known0);
            lemma_shape(mid, roots@, known);
            assert(passes(cur, longer));
            lemma_found(before, mid, known0, known, done, cur, k as int, idx as int);
        }
        arena[idx].total = arena[idx].total + weight;
        if k == n - 1 {
            assert(longer =~= whole);
            arena[idx].self_count = arena[idx].self_count + weight;
        }
        proof {
            lemma_counts_step(before, mid, arena@, known0, known, done, cur, k as int, idx as int);
            lemma_shape_ignores_counts(mid, arena@, roots@, known);
        }
        parent = Some(idx);
    }
    Ghost(known)
}

/// The shape does not depend on the events.
proof fn lemma_shape_ignores_counts(
    before: Seq<BuildNode>,
    after: Seq<BuildNode>,
    roots: LevelModel,
    paths: Seq<Seq<FrameId>>,
)
    requires
        shape_ok(before, roots, paths),
        after.len() == before.len(),
        forall|i: int|
            0 <= i < before.len() ==> (#[trigger] after[i]).frame == before[i].frame
                && after[i].children == before[i].children,
    ensures
        shape_ok(after, roots, paths),
{
    reveal(shape_ok);
    assert forall|i: int| 0 <= i < after.len() implies lists_level(
        (#[trigger] after[i]).children@,
        paths,
        paths[i],
        i + 1,
    ) by {
        assert(lists_level(before[i].children@, paths, paths[i], i + 1));
    }
    assert forall|i: int| 0 <= i < paths.len() implies (#[trigger] paths[i]).len() > 0
        && paths[i].last() == after[i].frame by {
        assert(after[i].frame == before[i].frame);
    }
}

impl Ranked for CallNode {
    open spec fn precedes(&self, other: &Self) -> bool {
        listed_before(*self, *other)
    }

    proof fn asymmetric(a: &Self, b: &Self) {
    }

    proof fn transitive(a: &Self, b: &Self, c: &Self) {
    }

    fn comes_first(&self, other: &Self) -> (r: bool) {
        self.total_samples > other.total_samples || (self.total_samples == other.total_samples
            && self.frame < other.frame)
    }
}

/// The nodes hold the events of all samples.
spec fn totals_ok<T>(
    arena: Seq<BuildNode>,
    paths: Seq<Seq<FrameId>>,
    samples: Seq<SampleModel<T>>,
) -> bool {
    &&& forall|i: int|
        0 <= i < arena.len() ==> (#[trigger] arena[i]).total == through(samples, paths[i])
            && arena[i].self_count == ending(samples, paths[i])
    &&& forall|p: Seq<FrameId>|
        p.len() > 0 ==> (#[trigger] paths.contains(p) <==> occurs(samples, p))
}

/// Sorts siblings by descending inclusive weight, ties by ascending frame id.
pub fn sort_nodes(nodes: Vec<CallNode>) -> (r: Vec<CallNode>)
    ensures
        in_order(r@),
        r@.to_multiset() == nodes@.to_multiset(),
{
    sort(nodes)
}

/// Sorting the nodes of a level gives the level.
proof fn lemma_sorted_level<T>(
    nodes: Seq<CallNode>,
    sorted: Seq<CallNode>,
    samples: Seq<SampleModel<T>>,
    path: Seq<FrameId>,
)
    requires
        forall|i: int, j: int|
            0 <= i < j < nodes.len() ==> (#[trigger] nodes[i]).frame != (#[trigger] nodes[j]).frame,
        forall|f: FrameId| #[trigger] has_frame(nodes, f) <==> occurs(samples, path.push(f)),
        forall|i: int| 0 <= i < nodes.len() ==> is_node(#[trigger] nodes[i], samples, path),
        in_order(sorted),
        sorted.to_multiset() == nodes.to_multiset(),
    ensures
        is_level(sorted, samples, path),
{
    lemma_same_values(nodes, sorted);
    assert(nodes.no_duplicates());
    nodes.to_multiset_ensures();
    sorted.to_multiset_ensures();
    nodes.lemma_multiset_has_no_duplicates();
    sorted.lemma_multiset_has_no_duplicates_conv();
    assert forall|i: int, j: int| 0 <= i < j < sorted.len() implies listed_before(
        #[trigger] sorted[i],
        #[trigger] sorted[j],
    ) && sorted[i].frame != sorted[j].frame by {
        assert(nodes.contains(sorted[i])) by {
            assert(sorted.contains(sorted[i]));
        }
        assert(nodes.contains(sorted[j])) by {
            assert(sorted.contains(sorted[j]));
        }
        let a = choose|a: int| 0 <= a < nodes.len() && nodes[a] == sorted[i];
        let b = choose|b: int| 0 <= b < nodes.len() && nodes[b] == sorted[j];
        assert(sorted[i] != sorted[j]);
        assert(a != b);
        assert(nodes[a].frame != nodes[b].frame);
        assert(!sorted[j].precedes(&sorted[i]));
    }
    assert forall|f: FrameId| #[trigger] has_frame(sorted, f) <==> occurs(
        samples,
        path.push(f),
    ) by {
        if has_frame(sorted, f) {
            let i = choose|i: int| 0 <= i < sorted.len() && (#[trigger] sorted[i]).frame == f;
            assert(sorted.contains(sorted[i]));
            assert(nodes.contains(sorted[i]));
            let a = choose|a: int| 0 <= a < nodes.len() && nodes[a] == sorted[i];
            assert(nodes[a].frame == f);
            assert(has_frame(nodes, f));
        }
        if has_frame(nodes, f) {
            let i = choose|i: int| 0 <= i < nodes.len() && (#[trigger] nodes[i]).frame == f;
            assert(nodes.contains(nodes[i]));
            assert(sorted.contains(nodes[i]));
            let a = choose|a: int| 0 <= a < sorted.len() && sorted[a] == nodes[i];
            assert(sorted[a].frame == f);
        }
    }
    assert forall|i: int| 0 <= i < sorted.len() implies is_node(
        #[trigger] sorted[i],
        samples,
        path,
    ) by {
        assert(sorted.contains(sorted[i]));
        assert(nodes.contains(sorted[i]));
        let a = choose|a: int| 0 <= a < nodes.len() && nodes[a] == sorted[i];
        assert(is_node(nodes[a], samples, path));
    }
}

/// Converts the nodes at `indices` and all below them, sorted.
fn finish_children<T>(
    arena: &Vec<BuildNode>,
    level: &Level,
    Ghost(roots): Ghost<LevelModel>,
    Ghost(paths): Ghost<Seq<Seq<FrameId>>>,
    Ghost(samples): Ghost<Seq<SampleModel<T>>>,
    Ghost(path): Ghost<Seq<FrameId>>,
    Ghost(lo): Ghost<int>,
) -> (r: Vec<CallNode>)
    requires
        shape_ok(arena@, roots, paths),
        totals_ok(arena@, paths, samples),
        lists_level(level@, paths, path, lo),
        0 <= lo <= arena@.len(),
    ensures
        is_level(r@, samples, path),
    decreases arena@.len() - lo,
{
    proof {
        reveal(shape_ok);
    }
    let indices = &level.list;
    let n = indices.len();
    let count = arena.len();
    let mut nodes: Vec<CallNode> = Vec::new();
    for k in 0..n
        invariant
            n == indices@.len(),
            indices@ == level@.list,
            shape_ok(arena@, roots, paths),
            totals_ok(arena@, paths, samples),
            lists_level(level@, paths, path, lo),
            0 <= lo <= arena@.len(),
            nodes@.len() == k,
            forall|j: int|
                0 <= j < k ==> {
                    &&& (#[trigger] nodes@[j]).frame == arena@[indices@[j] as int].frame
                    &&& is_node(nodes@[j], samples, path)
                },
    {
        let i = indices[k];
        proof {
            reveal(shape_ok);
            assert(indices@.contains(i));
            assert(paths[i as int] =~= path.push(arena@[i as int].frame));
            assert(lists_level(arena@[i as int].children@, paths, paths[i as int], i + 1));
        }
        let children = finish_children::<T>(
            arena,
            &arena[i].children,
            Ghost(roots),
            Ghost(paths),
            Ghost(samples),
            Ghost(paths[i as int]),
            Ghost(i + 1),
        );
        let node = CallNode {
            frame: arena[i].frame,
            total_samples: arena[i].total,
            self_samples: arena[i].self_count,
            children,
        };
        assert(is_node(node, samples, path));
        nodes.push(node);
    }
    let ghost made = nodes@;
    proof {
        assert forall|i: int, j: int| 0 <= i < j < made.len() implies (#[trigger] made[i]).frame
            != (#[trigger] made[j]).frame by {
            let a = indices@[i];
            let b = indices@[j];
            assert(a != b);
            assert(indices@.contains(a) && indices@.contains(b));
            assert(paths[a as int] =~= path.push(arena@[a as int].frame));
            assert(paths[b as int] =~= path.push(arena@[b as int].frame));
        }
        assert forall|f: FrameId| #[trigger] has_frame(made, f) <==> occurs(
            samples,
            path.push(f),
        ) by {
            let q = path.push(f);
            assert(q.drop_last() =~= path);
            assert(paths.contains(q) <==> occurs(samples, q));
            if has_frame(made, f) {
                let j = choose|j: int| 0 <= j < made.len() && (#[trigger] made[j]).frame == f;
                let a = indices@[j];
                assert(indices@.contains(a));
                assert(paths[a as int] =~= q);
            }
            if paths.contains(q) {
                let a = choose|a: int| 0 <= a < paths.len() && paths[a] == q;
                assert(a < count);
                assert(paths[a as usize as int].drop_last() == path);
                assert(indices@.contains(a as usize));
                let j = choose|j: int| 0 <= j < indices@.len() && indices@[j] == a as usize;
                assert(made[j].frame == f);
            }
        }
    }
    let sorted = sort_nodes(nodes);
    proof {
        lemma_sorted_level(made, sorted@, samples, path);
    }
    sorted
}

/// Once a sample was counted down to its leaf, the next one can be.
proof fn lemma_next_sample<T>(
    arena: Seq<BuildNode>,
    roots: LevelModel,
    paths: Seq<Seq<FrameId>>,
    done: Seq<SampleModel<T>>,
    cur: SampleModel<T>,
    next: SampleModel<T>,
)
    requires
        shape_ok(arena, roots, paths),
        counts_ok(arena, paths, done, cur, cur.stack.len() as int),
    ensures
        counts_ok(arena, paths, done.push(cur), next, 0),
{
    reveal(shape_ok);
    reveal(counts_ok);
    let all = done.push(cur);
    assert forall|i: int| 0 <= i < arena.len() implies (#[trigger] arena[i]).total == counted(
        all,
        next,
        0,
        paths[i],
    ) && arena[i].self_count == ended(all, next, 0, paths[i]) by {
        assert(paths[i].len() > 0);
        lemma_counted_all(done, cur, next, paths[i]);
    }
    assert forall|p: Seq<FrameId>| p.len() > 0 implies (#[trigger] paths.contains(p) <==> reached(
        all,
        next,
        0,
        p,
    )) by {
        lemma_counted_all(done, cur, next, p);
    }
}

/// Once all samples were counted, the nodes hold their events.
proof fn lemma_all_counted<T>(
    arena: Seq<BuildNode>,
    roots: LevelModel,
    paths: Seq<Seq<FrameId>>,
    all: Seq<SampleModel<T>>,
    next: SampleModel<T>,
)
    requires
        shape_ok(arena, roots, paths),
        counts_ok(arena, paths, all, next, 0),
    ensures
        totals_ok(arena, paths, all),
{
    reveal(shape_ok);
    reveal(counts_ok);
    assert forall|i: int| 0 <= i < arena.len() implies (#[trigger] arena[i]).total == through(
        all,
        paths[i],
    ) && arena[i].self_count == ending(all, paths[i]) by {
        assert(paths[i].len() > 0);
    }
}

/// Aggregates a thread's samples into a top-down [`CallTree`] of inclusive and
/// exclusive event counts.
pub fn call_tree<T>(thread: &Thread<T>) -> (r: CallTree)
    requires
        weight_sum(thread@.samples) <= u64::MAX,
    ensures
        is_call_tree(r, thread@.samples),
{
    proof {
        reveal(shape_ok);
        reveal(counts_ok);
    }
    let ghost all = thread@.samples;
    let n = thread.samples.len();
    let mut arena: Vec<BuildNode> = Vec::new();
    let mut roots = Level::new();
    let mut total_samples: u64 = 0;
    let ghost mut paths: Seq<Seq<FrameId>> = Seq::empty();
    for m in 0..n
        invariant
            n == thread.samples@.len(),
            all == thread@.samples,
            weight_sum(all) <= u64::MAX,
            shape_ok(arena@, roots@, paths),
            counts_ok(arena@, paths, all.take(m as int), all[m as int], 0),
            total_samples == weight_sum(all.take(m as int)),
    {
        let ghost done = all.take(m as int);
        let ghost cur = all[m as int];
        let sample = &thread.samples[m];
        proof {
            assert(cur == sample@);
            assert(all.take(m + 1).drop_last() =~= done);
            assert(all.take(m + 1).last() == cur);
            assert(all.take(m + 1) =~= done.push(cur));
            lemma_weight_sum_grows(all, m + 1);
        }
        total_samples = total_samples + sample.weight;
        let grown = add_sample::<T>(
            &mut arena,
            &mut roots,
            &sample.stack,
            sample.weight,
            Ghost(paths),
            Ghost(done),
            Ghost(cur),
        );
        proof {
            paths = grown@;
            lemma_next_sample(arena@, roots@, paths, done, cur, all[m + 1]);
        }
    }
    proof {
        assert(all.take(n as int) =~= all);
        lemma_all_counted(arena@, roots@, paths, all, all[n as int]);
        reveal(shape_ok);
    }
    let nodes = finish_children::<T>(
        &arena,
        &roots,
        Ghost(roots@),
        Ghost(paths),
        Ghost(all),
        Ghost(Seq::empty()),
        Ghost(0),
    );
    CallTree { roots: nodes, total_samples }
}

// ---------------------------------------------------------------------------
// Laws of the call tree
// ---------------------------------------------------------------------------

/// The inclusive events of the nodes of a list.
pub open spec fn level_sum(nodes: Seq<CallNode>) -> nat
    decreases nodes.len(),
{
    if nodes.len() == 0 {
        0
    } else {
        level_sum(nodes.drop_last()) + nodes.last().total_samples as nat
    }
}

/// At every node the exclusive events and the inclusive events of the children add
/// up to the node's inclusive events.
pub open spec fn conserves(nodes: Seq<CallNode>) -> bool
    decreases nodes,
{
    forall|i: int|
        0 <= i < nodes.len() ==> {
            &&& (#[trigger] nodes[i]).self_samples + level_sum(nodes[i].children@)
                == nodes[i].total_samples
            &&& conserves(nodes[i].children@)
        }
}

/// The exclusive events of all nodes of a list and below.
pub open spec fn self_sum(nodes: Seq<CallNode>) -> nat
    decreases nodes,
{
    if nodes.len() == 0 {
        0
    } else {
        self_sum(nodes.drop_last()) + nodes.last().self_samples as nat + self_sum(
            nodes[nodes.len() - 1].children@,
        )
    }
}

/// The events through `path` that go on with one of `frames`.
pub open spec fn fan_out<T>(
    samples: Seq<SampleModel<T>>,
    path: Seq<FrameId>,
    frames: Seq<FrameId>,
) -> nat
    decreases frames.len(),
{
    if frames.len() == 0 {
        0
    } else {
        fan_out(samples, path, frames.drop_last()) + through(samples, path.push(frames.last()))
    }
}

/// The last sample adds its weight to the one frame that follows `path` in it.
proof fn lemma_fan_out_step<T>(
    samples: Seq<SampleModel<T>>,
    path: Seq<FrameId>,
    frames: Seq<FrameId>,
)
    requires
        samples.len() > 0,
        frames.no_duplicates(),
    ensures
        fan_out(samples, path, frames) == fan_out(samples.drop_last(), path, frames) + (if passes(
            samples.last(),
            path,
        ) && path.len() < samples.last().stack.len() && frames.contains(
            call_path(samples.last())[path.len() as int],
        ) {
            samples.last().weight as nat
        } else {
            0
        }),
    decreases frames.len(),
{
    if frames.len() > 0 {
        let rest = frames.drop_last();
        let f = frames.last();
        let s = samples.last();
        let whole = call_path(s);
        let n = path.len() as int;
        assert(rest.no_duplicates());
        lemma_fan_out_step(samples, path, rest);
        assert(passes(s, path.push(f)) <==> passes(s, path) && n < s.stack.len() && whole[n]
            == f) by {
            if passes(s, path.push(f)) {
                assert(whole.take(n + 1)[n] == f);
                assert(whole.take(n) =~= path) by {
                    assert forall|i: int| 0 <= i < n implies whole.take(n)[i] == path[i] by {
                        assert(whole.take(n + 1)[i] == path.push(f)[i]);
                    }
                }
            }
            if passes(s, path) && n < s.stack.len() && whole[n] == f {
                assert(whole.take(n + 1) =~= whole.take(n).push(f));
            }
        }
        if n < s.stack.len() {
            let g = whole[n];
            if rest.contains(g) {
                let i = choose|i: int| 0 <= i < rest.len() && rest[i] == g;
                assert(frames[i] == g);
                assert(frames[frames.len() - 1] == f);
                assert(f != g);
            }
            if frames.contains(g) && g != f {
                let i = choose|i: int| 0 <= i < frames.len() && frames[i] == g;
                assert(rest[i] == g);
            }
            if g == f {
                assert(frames[frames.len() - 1] == g);
            }
        }
    }
}

/// The events through a path are those that end there and those that go on.
pub proof fn lemma_fan_out<T>(
    samples: Seq<SampleModel<T>>,
    path: Seq<FrameId>,
    frames: Seq<FrameId>,
)
    requires
        frames.no_duplicates(),
        forall|f: FrameId| occurs(samples, #[trigger] path.push(f)) ==> frames.contains(f),
    ensures
        through(samples, path) == ending(samples, path) + fan_out(samples, path, frames),
    decreases samples.len(),
{
    if samples.len() == 0 {
        lemma_fan_out_empty(samples, path, frames);
    } else {
        let rest = samples.drop_last();
        let s = samples.last();
        let whole = call_path(s);
        let n = path.len() as int;
        assert forall|f: FrameId| occurs(rest, #[trigger] path.push(f)) implies frames.contains(
            f,
        ) by {
            let i = choose|i: int| 0 <= i < rest.len() && passes(#[trigger] rest[i], path.push(f));
            assert(passes(samples[i], path.push(f)));
        }
        lemma_fan_out(rest, path, frames);
        lemma_fan_out_step(samples, path, frames);
        if passes(s, path) {
            if n < s.stack.len() {
                let f = whole[n];
                assert(whole.take(n + 1) =~= path.push(f));
                assert(passes(samples[samples.len() - 1], path.push(f)));
                assert(frames.contains(f));
                assert(whole.len() != path.len());
            } else {
                assert(whole =~= path);
            }
        } else {
            assert(whole.take(whole.len() as int) =~= whole);
        }
    }
}

proof fn lemma_fan_out_empty<T>(
    samples: Seq<SampleModel<T>>,
    path: Seq<FrameId>,
    frames: Seq<FrameId>,
)
    requires
        samples.len() == 0,
    ensures
        fan_out(samples, path, frames) == 0,
    decreases frames.len(),
{
    if frames.len() > 0 {
        lemma_fan_out_empty(samples, path, frames.drop_last());
    }
}

/// The frames of the nodes of a list.
pub open spec fn frames_of_nodes(nodes: Seq<CallNode>) -> Seq<FrameId> {
    nodes.map_values(|n: CallNode| n.frame)
}

proof fn lemma_level_sum<T>(
    nodes: Seq<CallNode>,
    samples: Seq<SampleModel<T>>,
    path: Seq<FrameId>,
)
    requires
        forall|i: int|
            0 <= i < nodes.len() ==> (#[trigger] nodes[i]).total_samples == through(
                samples,
                path.push(nodes[i].frame),
            ),
    ensures
        level_sum(nodes) == fan_out(samples, path, frames_of_nodes(nodes)),
    decreases nodes.len(),
{
    if nodes.len() > 0 {
        let rest = nodes.drop_last();
        assert forall|i: int| 0 <= i < rest.len() implies (#[trigger] rest[i]).total_samples
            == through(samples, path.push(rest[i].frame)) by {
            assert(rest[i] == nodes[i]);
        }
        lemma_level_sum(rest, samples, path);
        assert(frames_of_nodes(nodes).drop_last() =~= frames_of_nodes(rest));
        assert(nodes[nodes.len() - 1].total_samples == through(
            samples,
            path.push(nodes.last().frame),
        ));
    }
}

/// The nodes right below a path carry exactly the events that go on from it.
pub proof fn lemma_level_conserves<T>(
    nodes: Seq<CallNode>,
    samples: Seq<SampleModel<T>>,
    path: Seq<FrameId>,
)
    requires
        is_level(nodes, samples, path),
    ensures
        ending(samples, path) + level_sum(nodes) == through(samples, path),
{
    let frames = frames_of_nodes(nodes);
    assert forall|i: int| 0 <= i < nodes.len() implies (#[trigger] nodes[i]).total_samples
        == through(samples, path.push(nodes[i].frame)) by {
        assert(is_node(nodes[i], samples, path));
    }
    lemma_level_sum(nodes, samples, path);
    assert(frames.no_duplicates()) by {
        assert forall|i: int, j: int|
            0 <= i < frames.len() && 0 <= j < frames.len() && i != j implies frames[i]
            != frames[j] by {
            if i < j {
                assert(nodes[i].frame != nodes[j].frame);
            } else {
                assert(nodes[j].frame != nodes[i].frame);
            }
        }
    }
    assert forall|f: FrameId| occurs(samples, #[trigger] path.push(f)) implies frames.contains(
        f,
    ) by {
        assert(has_frame(nodes, f));
        let i = choose|i: int| 0 <= i < nodes.len() && (#[trigger] nodes[i]).frame == f;
        assert(frames[i] == f);
    }
    lemma_fan_out(samples, path, frames);
}

proof fn lemma_conserves<T>(
    nodes: Seq<CallNode>,
    samples: Seq<SampleModel<T>>,
    path: Seq<FrameId>,
)
    requires
        is_level(nodes, samples, path),
    ensures
        conserves(nodes),
    decreases nodes,
{
    assert forall|i: int| 0 <= i < nodes.len() implies {
        &&& (#[trigger] nodes[i]).self_samples + level_sum(nodes[i].children@)
            == nodes[i].total_samples
        &&& conserves(nodes[i].children@)
    } by {
        let p = path.push(nodes[i].frame);
        assert(is_node(nodes[i], samples, path));
        lemma_level_conserves(nodes[i].children@, samples, p);
        lemma_conserves(nodes[i].children@, samples, p);
    }
}

proof fn lemma_self_sum(nodes: Seq<CallNode>)
    requires
        conserves(nodes),
    ensures
        self_sum(nodes) == level_sum(nodes),
    decreases nodes,
{
    if nodes.len() > 0 {
        let rest = nodes.drop_last();
        let last = nodes[nodes.len() - 1];
        assert forall|i: int| 0 <= i < rest.len() implies {
            &&& (#[trigger] rest[i]).self_samples + level_sum(rest[i].children@)
                == rest[i].total_samples
            &&& conserves(rest[i].children@)
        } by {
            assert(rest[i] == nodes[i]);
        }
        lemma_self_sum(rest);
        lemma_self_sum(last.children@);
    }
}

/// The events of all stacks go through the empty path.
pub proof fn lemma_through_root<T>(samples: Seq<SampleModel<T>>)
    ensures
        through(samples, Seq::empty()) == weight_sum(samples),
        ending(samples, Seq::empty()) + deep_sum(samples, 1) == weight_sum(samples),
    decreases samples.len(),
{
    if samples.len() > 0 {
        lemma_through_root(samples.drop_last());
        let s = samples.last();
        assert(call_path(s).take(0) =~= Seq::<FrameId>::empty());
        if s.stack.len() == 0 {
            assert(call_path(s) =~= Seq::<FrameId>::empty());
        } else {
            assert(call_path(s).len() > 0);
        }
    }
}

/// A call tree accounts once for every event of a sample that has a stack: at every
/// node the exclusive events and the children's inclusive events make up the node's,
/// and both the roots and the exclusive events of all nodes make up those events.
pub proof fn law_call_tree_conserves<T>(tree: CallTree, samples: Seq<SampleModel<T>>)
    requires
        is_call_tree(tree, samples),
    ensures
        conserves(tree.roots@),
        level_sum(tree.roots@) == deep_sum(samples, 1),
        self_sum(tree.roots@) == deep_sum(samples, 1),
        level_sum(tree.roots@) <= tree.total_samples,
{
    lemma_conserves(tree.roots@, samples, Seq::empty());
    lemma_level_conserves(tree.roots@, samples, Seq::empty());
    lemma_through_root(samples);
    lemma_self_sum(tree.roots@);
}

/// A call tree's total is the thread's events. Where every sample has a stack, the
/// roots cover it, and so do the exclusive events of all nodes.
pub proof fn law_call_tree_total<T>(tree: CallTree, samples: Seq<SampleModel<T>>)
    requires
        is_call_tree(tree, samples),
    ensures
        tree.total_samples == weight_sum(samples),
        (forall|i: int| 0 <= i < samples.len() ==> (#[trigger] samples[i]).stack.len() > 0) ==> {
            &&& level_sum(tree.roots@) == tree.total_samples
            &&& self_sum(tree.roots@) == tree.total_samples
        },
{
    law_call_tree_conserves(tree, samples);
    lemma_through_root(samples);
    if forall|i: int| 0 <= i < samples.len() ==> (#[trigger] samples[i]).stack.len() > 0 {
        lemma_nothing_ends_at_root(samples);
    }
}

proof fn lemma_nothing_ends_at_root<T>(samples: Seq<SampleModel<T>>)
    requires
        forall|i: int| 0 <= i < samples.len() ==> (#[trigger] samples[i]).stack.len() > 0,
    ensures
        ending(samples, Seq::empty()) == 0,
    decreases samples.len(),
{
    if samples.len() > 0 {
        let rest = samples.drop_last();
        assert forall|i: int| 0 <= i < rest.len() implies (#[trigger] rest[i]).stack.len() > 0 by {
            assert(rest[i] == samples[i]);
        }
        lemma_nothing_ends_at_root(rest);
        assert(samples[samples.len() - 1].stack.len() > 0);
        assert(call_path(samples.last()).len() > 0);
    }
}

/// Two lists of nodes hold the same frames and events, all the way down.
pub open spec fn same_nodes(a: Seq<CallNode>, b: Seq<CallNode>) -> bool
    decreases a,
{
    &&& a.len() == b.len()
    &&& forall|i: int|
        0 <= i < a.len() ==> {
            &&& (#[trigger] a[i]).frame == b[i].frame
            &&& a[i].total_samples == b[i].total_samples
            &&& a[i].self_samples == b[i].self_samples
            &&& same_nodes(a[i].children@, b[i].children@)
        }
}

proof fn lemma_same_frame<T>(
    a: Seq<CallNode>,
    b: Seq<CallNode>,
    samples: Seq<SampleModel<T>>,
    path: Seq<FrameId>,
    i: int,
)
    requires
        is_level(a, samples, path),
        is_level(b, samples, path),
        0 <= i < a.len(),
    ensures
        i < b.len(),
        a[i].frame == b[i].frame,
    decreases i,
{
    assert forall|j: int|
        0 <= j < i implies j < b.len() && (#[trigger] a[j]).frame == b[j].frame by {
        lemma_same_frame(a, b, samples, path, j);
    }
    // Where the frame stands in the other list.
    assert(has_frame(a, a[i].frame));
    assert(has_frame(b, a[i].frame));
    let k = choose|k: int| 0 <= k < b.len() && (#[trigger] b[k]).frame == a[i].frame;
    if k < i {
        assert(a[k].frame == b[k].frame);
        assert(a[k].frame != a[i].frame);
    }
    assert(k >= i);
    if k > i {
        assert(has_frame(b, b[i].frame));
        assert(has_frame(a, b[i].frame));
        let m = choose|m: int| 0 <= m < a.len() && (#[trigger] a[m]).frame == b[i].frame;
        if m < i {
            assert(a[m].frame == b[m].frame);
            assert(b[m].frame != b[i].frame);
        }
        assert(m >= i);
        assert(is_node(a[i], samples, path) && is_node(b[k], samples, path));
        assert(is_node(a[m], samples, path) && is_node(b[i], samples, path));
        assert(listed_before(b[i], b[k]));
        if m > i {
            assert(listed_before(a[i], a[m]));
        }
    }
}

proof fn lemma_level_is_determined<T>(
    a: Seq<CallNode>,
    b: Seq<CallNode>,
    samples: Seq<SampleModel<T>>,
    path: Seq<FrameId>,
)
    requires
        is_level(a, samples, path),
        is_level(b, samples, path),
    ensures
        same_nodes(a, b),
    decreases a,
{
    if a.len() > 0 {
        lemma_same_frame(a, b, samples, path, a.len() - 1);
    }
    if b.len() > 0 {
        lemma_same_frame(b, a, samples, path, b.len() - 1);
    }
    assert forall|i: int| 0 <= i < a.len() implies {
        &&& (#[trigger] a[i]).frame == b[i].frame
        &&& a[i].total_samples == b[i].total_samples
        &&& a[i].self_samples == b[i].self_samples
        &&& same_nodes(a[i].children@, b[i].children@)
    } by {
        lemma_same_frame(a, b, samples, path, i);
        assert(is_node(a[i], samples, path));
        assert(is_node(b[i], samples, path));
        lemma_level_is_determined(
            a[i].children@,
            b[i].children@,
            samples,
            path.push(a[i].frame),
        );
    }
}

/// The samples determine their call tree.
pub proof fn law_call_tree_is_determined<T>(a: CallTree, b: CallTree, samples: Seq<SampleModel<T>>)
    requires
        is_call_tree(a, samples),
        is_call_tree(b, samples),
    ensures
        same_nodes(a.roots@, b.roots@),
        a.total_samples == b.total_samples,
{
    lemma_level_is_determined(a.roots@, b.roots@, samples, Seq::empty());
}

/// The stacks of the samples and their weights, each as often as it was sampled.
pub open spec fn weighted_stacks<T>(samples: Seq<SampleModel<T>>) -> Multiset<
    (Seq<FrameId>, u64),
> {
    weighted_list(samples).to_multiset()
}

/// The stacks of the samples and their weights, in order.
pub open spec fn weighted_list<T>(samples: Seq<SampleModel<T>>) -> Seq<(Seq<FrameId>, u64)> {
    samples.map_values(|s: SampleModel<T>| (s.stack, s.weight))
}

/// Some sample in `y` has the stack and the weight of sample `i` in `x`.
proof fn lemma_weighted_match<S, T>(
    x: Seq<SampleModel<S>>,
    y: Seq<SampleModel<T>>,
    i: int,
) -> (j: int)
    requires
        weighted_stacks(x) == weighted_stacks(y),
        0 <= i < x.len(),
    ensures
        0 <= j < y.len(),
        y[j].stack == x[i].stack,
        y[j].weight == x[i].weight,
{
    let a = weighted_list(x);
    let b = weighted_list(y);
    a.to_multiset_ensures();
    b.to_multiset_ensures();
    let e = (x[i].stack, x[i].weight);
    assert(a[i] == e);
    assert(a.contains(e));
    assert(a.to_multiset().count(e) > 0);
    assert(b.contains(e));
    let j = choose|j: int| 0 <= j < b.len() && b[j] == e;
    assert(b[j] == (y[j].stack, y[j].weight));
    j
}

/// Every sample counts for itself, wherever it stands.
proof fn lemma_without_sample<T>(samples: Seq<SampleModel<T>>, j: int, path: Seq<FrameId>)
    requires
        0 <= j < samples.len(),
    ensures
        through(samples, path) == through(samples.remove(j), path) + if passes(samples[j], path) {
            samples[j].weight as nat
        } else {
            0
        },
        ending(samples, path) == ending(samples.remove(j), path) + if call_path(samples[j])
            == path {
            samples[j].weight as nat
        } else {
            0
        },
        weight_sum(samples) == weight_sum(samples.remove(j)) + samples[j].weight,
    decreases samples.len(),
{
    let rest = samples.remove(j);
    if j == samples.len() - 1 {
        assert(rest =~= samples.drop_last());
    } else {
        lemma_without_sample(samples.drop_last(), j, path);
        assert(rest.drop_last() =~= samples.drop_last().remove(j));
        assert(rest.last() == samples.last());
    }
}

/// The events of a path do not depend on the order of the samples.
proof fn lemma_same_events<S, T>(
    x: Seq<SampleModel<S>>,
    y: Seq<SampleModel<T>>,
    path: Seq<FrameId>,
)
    requires
        weighted_stacks(x) == weighted_stacks(y),
    ensures
        through(x, path) == through(y, path),
        ending(x, path) == ending(y, path),
        weight_sum(x) == weight_sum(y),
    decreases x.len(),
{
    let a = weighted_list(x);
    let b = weighted_list(y);
    a.to_multiset_ensures();
    b.to_multiset_ensures();
    assert(x.len() == a.to_multiset().len() && y.len() == b.to_multiset().len());
    if x.len() > 0 {
        let i = x.len() - 1;
        let j = lemma_weighted_match(x, y, i);
        assert(weighted_list(x.remove(i)) =~= a.remove(i));
        assert(weighted_list(y.remove(j)) =~= b.remove(j));
        assert(a[i] == b[j]);
        lemma_same_events(x.remove(i), y.remove(j), path);
        lemma_without_sample(x, i, path);
        lemma_without_sample(y, j, path);
        assert(call_path(x[i]) == call_path(y[j]));
    }
}

/// Which paths occur does not depend on the order of the samples.
proof fn lemma_same_paths<S, T>(
    x: Seq<SampleModel<S>>,
    y: Seq<SampleModel<T>>,
    path: Seq<FrameId>,
)
    requires
        weighted_stacks(x) == weighted_stacks(y),
    ensures
        occurs(x, path) ==> occurs(y, path),
{
    if occurs(x, path) {
        let i = choose|i: int| 0 <= i < x.len() && passes(#[trigger] x[i], path);
        let j = lemma_weighted_match(x, y, i);
        assert(passes(y[j], path));
    }
}

/// The nodes below a path are right for the samples in any order.
proof fn lemma_level_ignores_order<S, T>(
    nodes: Seq<CallNode>,
    x: Seq<SampleModel<S>>,
    y: Seq<SampleModel<T>>,
    path: Seq<FrameId>,
)
    requires
        weighted_stacks(x) == weighted_stacks(y),
        is_level(nodes, x, path),
    ensures
        is_level(nodes, y, path),
    decreases nodes,
{
    assert forall|f: FrameId| #[trigger] has_frame(nodes, f) <==> occurs(y, path.push(f)) by {
        lemma_same_paths(x, y, path.push(f));
        lemma_same_paths(y, x, path.push(f));
    }
    assert forall|i: int| 0 <= i < nodes.len() implies is_node(#[trigger] nodes[i], y, path) by {
        let below = path.push(nodes[i].frame);
        assert(is_node(nodes[i], x, path));
        lemma_same_events(x, y, below);
        lemma_level_ignores_order(nodes[i].children@, x, y, below);
    }
}

/// A tree that is right for samples is right for them in any order, and at any times.
pub proof fn lemma_call_tree_ignores_order<S, T>(
    tree: CallTree,
    x: Seq<SampleModel<S>>,
    y: Seq<SampleModel<T>>,
)
    requires
        weighted_stacks(x) == weighted_stacks(y),
        is_call_tree(tree, x),
    ensures
        is_call_tree(tree, y),
{
    lemma_same_events(x, y, Seq::empty());
    lemma_level_ignores_order(tree.roots@, x, y, Seq::empty());
}

/// Paths are merged regardless of when they were sampled: two lists of samples with the
/// same stacks and weights, in whatever order and at whatever times, have the same call
/// tree.
pub proof fn law_call_tree_ignores_order<S, T>(
    a: CallTree,
    b: CallTree,
    x: Seq<SampleModel<S>>,
    y: Seq<SampleModel<T>>,
)
    requires
        is_call_tree(a, x),
        is_call_tree(b, y),
        weighted_stacks(x) == weighted_stacks(y),
    ensures
        same_nodes(a.roots@, b.roots@),
        a.total_samples == b.total_samples,
{
    lemma_call_tree_ignores_order(a, x, y);
    law_call_tree_is_determined(a, b, y);
}

/// The call tree and the flame chart agree: the inclusive events of a node are those of
/// the bricks of its call path.
pub proof fn law_call_tree_matches_chart<T>(
    node: CallNode,
    samples: Seq<SampleModel<T>>,
    path: Seq<FrameId>,
)
    requires
        is_node(node, samples, path),
    ensures
        node.total_samples == path_sum(chart(samples), samples, path.push(node.frame)),
{
    law_paths_account_for_samples(samples, path.push(node.frame));
}

// ---------------------------------------------------------------------------
// The tree that `call_tree` gives
// ---------------------------------------------------------------------------

/// The nodes below the path of frames `path`, which starts among `nodes`: none where the
/// path is not there.
pub open spec fn below(nodes: Seq<CallNode>, path: Seq<FrameId>) -> Seq<CallNode>
    decreases path.len(),
{
    if path.len() == 0 {
        nodes
    } else if exists|i: int| 0 <= i < nodes.len() && (#[trigger] nodes[i]).frame == path[0] {
        let i = choose|i: int| 0 <= i < nodes.len() && (#[trigger] nodes[i]).frame == path[0];
        below(nodes[i].children@, path.skip(1))
    } else {
        Seq::empty()
    }
}

/// The stack, leaf first, has `path` as its outermost frames, root first.
pub open spec fn stack_starts(stack: Seq<FrameId>, path: Seq<FrameId>) -> bool {
    &&& path.len() <= stack.len()
    &&& forall|d: int| 0 <= d < path.len() ==> stack[stack.len() - 1 - d] == #[trigger] path[d]
}

/// The events of the samples whose stacks have `path` as their outermost frames, root
/// first.
pub open spec fn events_through<T>(samples: Seq<Sample<T>>, path: Seq<FrameId>) -> int {
    samples.fold_left(
        0int,
        |sum: int, s: Sample<T>|
            if stack_starts(s.stack@, path) {
                sum + s.weight
            } else {
                sum
            },
    )
}

/// The events of the samples whose stacks are `path`, root first.
pub open spec fn events_ending<T>(samples: Seq<Sample<T>>, path: Seq<FrameId>) -> int {
    samples.fold_left(
        0int,
        |sum: int, s: Sample<T>|
            if stack_starts(s.stack@, path) && s.stack@.len() == path.len() {
                sum + s.weight
            } else {
                sum
            },
    )
}

pub proof fn lemma_stack_starts<T>(s: SampleModel<T>, path: Seq<FrameId>)
    ensures
        stack_starts(s.stack, path) <==> passes(s, path),
        stack_starts(s.stack, path) && s.stack.len() == path.len() <==> call_path(s) == path,
{
    let p = call_path(s);
    if stack_starts(s.stack, path) {
        assert(p.take(path.len() as int) =~= path);
        if s.stack.len() == path.len() {
            assert(p =~= path);
        }
    }
    if passes(s, path) {
        assert forall|d: int| 0 <= d < path.len() implies s.stack[s.stack.len() - 1 - d]
            == #[trigger] path[d] by {
            assert(p.take(path.len() as int)[d] == p[d]);
        }
    }
    if p == path {
        assert(p.len() == s.stack.len());
        assert(p.take(path.len() as int) =~= path);
    }
}

pub proof fn lemma_events_through<T>(
    samples: Seq<Sample<T>>,
    models: Seq<SampleModel<T>>,
    path: Seq<FrameId>,
)
    requires
        models =~= sample_models(samples),
    ensures
        through(models, path) == events_through(samples, path),
        ending(models, path) == events_ending(samples, path),
        weight_sum(models) == samples.fold_left(0int, |sum: int, s: Sample<T>| sum + s.weight),
    decreases samples.len(),
{
    if samples.len() > 0 {
        assert(models.drop_last() =~= sample_models(samples.drop_last()));
        lemma_events_through(samples.drop_last(), models.drop_last(), path);
        assert(models.last() == samples.last()@);
        lemma_stack_starts(models.last(), path);
    }
}

/// What stands below a path is right.
proof fn lemma_below<T>(
    nodes: Seq<CallNode>,
    samples: Seq<SampleModel<T>>,
    path: Seq<FrameId>,
    rest: Seq<FrameId>,
)
    requires
        is_level(nodes, samples, path),
    ensures
        is_level(below(nodes, rest), samples, path + rest),
    decreases rest.len(),
{
    if rest.len() == 0 {
        assert(path + rest =~= path);
    } else if has_frame(nodes, rest[0]) {
        let i = choose|i: int| 0 <= i < nodes.len() && (#[trigger] nodes[i]).frame == rest[0];
        assert(is_node(nodes[i], samples, path));
        lemma_below(nodes[i].children@, samples, path.push(rest[0]), rest.skip(1));
        assert(path.push(rest[0]) + rest.skip(1) =~= path + rest);
    } else {
        let none = Seq::<CallNode>::empty();
        assert forall|f: FrameId| #[trigger] has_frame(none, f) <==> occurs(
            samples,
            (path + rest).push(f),
        ) by {
            if occurs(samples, (path + rest).push(f)) {
                let k = choose|k: int|
                    0 <= k < samples.len() && passes(
                        #[trigger] samples[k],
                        (path + rest).push(f),
                    );
                let long = (path + rest).push(f);
                let p = call_path(samples[k]);
                let short = path.push(rest[0]);
                assert(p.take(short.len() as int) =~= short) by {
                    assert forall|d: int| 0 <= d < short.len() implies p[d] == short[d] by {
                        assert(p.take(long.len() as int)[d] == long[d]);
                    }
                }
                assert(passes(samples[k], short));
                assert(occurs(samples, short));
                assert(has_frame(nodes, rest[0]));
            }
        }
    }
}

/// At every place of a call tree there is exactly one node for each frame that follows,
/// in some sample's stack, the path to that place. It has the events of all samples
/// whose stacks lead through it, and as its own those of the samples that end there,
/// whenever they were taken.
pub proof fn law_call_tree_merges_paths<T>(thread: Thread<T>, tree: CallTree, path: Seq<FrameId>)
    requires
        is_call_tree(tree, thread@.samples),
    ensures
        forall|k: int|
            0 <= k < thread.samples@.len() && stack_starts(
                (#[trigger] thread.samples@[k]).stack@,
                path,
            ) && thread.samples@[k].stack@.len() > path.len() ==> exists|i: int|
                0 <= i < below(tree.roots@, path).len() && (#[trigger] below(
                    tree.roots@,
                    path,
                )[i]).frame == thread.samples@[k].stack@[thread.samples@[k].stack@.len() - 1
                    - path.len()],
        forall|i: int, j: int|
            0 <= i < j < below(tree.roots@, path).len() ==> (#[trigger] below(
                tree.roots@,
                path,
            )[i]).frame != (#[trigger] below(tree.roots@, path)[j]).frame,
        forall|i: int|
            0 <= i < below(tree.roots@, path).len() ==> {
                let node = #[trigger] below(tree.roots@, path)[i];
                &&& exists|k: int|
                    0 <= k < thread.samples@.len() && stack_starts(
                        (#[trigger] thread.samples@[k]).stack@,
                        path.push(node.frame),
                    )
                &&& node.total_samples == events_through(
                    thread.samples@,
                    path.push(node.frame),
                )
                &&& node.self_samples == events_ending(thread.samples@, path.push(node.frame))
            },
        tree.total_samples == thread.samples@.fold_left(
            0int,
            |sum: int, s: Sample<T>| sum + s.weight,
        ),
{
    let s = thread.samples@;
    let all = thread@.samples;
    let nodes = below(tree.roots@, path);
    lemma_below(tree.roots@, all, Seq::empty(), path);
    assert(Seq::<FrameId>::empty() + path =~= path);
    lemma_events_through(s, all, path);
    assert forall|k: int|
        0 <= k < s.len() && stack_starts((#[trigger] s[k]).stack@, path) && s[k].stack@.len()
            > path.len() implies exists|i: int|
        0 <= i < nodes.len() && (#[trigger] nodes[i]).frame == s[k].stack@[s[k].stack@.len() - 1
            - path.len()] by {
        let d = s[k].stack@.len() - 1 - path.len();
        let longer = path.push(s[k].stack@[d]);
        assert(all[k] == s[k]@);
        assert(stack_starts(s[k].stack@, longer));
        lemma_stack_starts(all[k], longer);
        assert(passes(all[k], longer));
        assert(occurs(all, longer));
        assert(has_frame(nodes, s[k].stack@[d]));
    }
    assert forall|i: int| 0 <= i < nodes.len() implies {
        let node = #[trigger] nodes[i];
        &&& exists|k: int|
            0 <= k < s.len() && stack_starts(
                (#[trigger] s[k]).stack@,
                path.push(node.frame),
            )
        &&& node.total_samples == events_through(s, path.push(node.frame))
        &&& node.self_samples == events_ending(s, path.push(node.frame))
    } by {
        let longer = path.push(nodes[i].frame);
        assert(is_node(nodes[i], all, path));
        assert(has_frame(nodes, nodes[i].frame));
        let k = choose|k: int| 0 <= k < all.len() && passes(#[trigger] all[k], longer);
        assert(all[k] == s[k]@);
        lemma_stack_starts(all[k], longer);
        assert(stack_starts(s[k].stack@, longer));
        lemma_events_through(s, all, longer);
    }
}

/// At every place of a call tree the siblings come heaviest first, by their inclusive
/// events, and those of the same weight by ascending frame id.
pub proof fn law_call_tree_lists_the_heaviest_first<T>(
    tree: CallTree,
    samples: Seq<SampleModel<T>>,
    path: Seq<FrameId>,
    i: int,
    j: int,
)
    requires
        is_call_tree(tree, samples),
        0 <= i < j < below(tree.roots@, path).len(),
    ensures
        below(tree.roots@, path)[i].total_samples >= below(tree.roots@, path)[j].total_samples,
        below(tree.roots@, path)[i].total_samples == below(tree.roots@, path)[j].total_samples
            ==> below(tree.roots@, path)[i].frame < below(tree.roots@, path)[j].frame,
{
    lemma_below(tree.roots@, samples, Seq::empty(), path);
    assert(listed_before(below(tree.roots@, path)[i], below(tree.roots@, path)[j]));
}

/// The same for the roots, and for the children of any node.
pub proof fn law_siblings_are_listed_by_weight<T>(
    nodes: Seq<CallNode>,
    samples: Seq<SampleModel<T>>,
    path: Seq<FrameId>,
)
    requires
        is_level(nodes, samples, path),
    ensures
        forall|i: int, j: int|
            0 <= i < j < nodes.len() ==> (#[trigger] nodes[i]).total_samples >= (
            #[trigger] nodes[j]).total_samples,
        forall|n: int, i: int, j: int|
            0 <= n < nodes.len() && 0 <= i < j < nodes[n].children@.len() ==> (
            #[trigger] nodes[n].children@[i]).total_samples >= (
            #[trigger] nodes[n].children@[j]).total_samples,
{
    assert forall|i: int, j: int| 0 <= i < j < nodes.len() implies (
    #[trigger] nodes[i]).total_samples >= (#[trigger] nodes[j]).total_samples by {
        assert(listed_before(nodes[i], nodes[j]));
    }
    assert forall|n: int, i: int, j: int|
        0 <= n < nodes.len() && 0 <= i < j < nodes[n].children@.len() implies (
    #[trigger] nodes[n].children@[i]).total_samples >= (
    #[trigger] nodes[n].children@[j]).total_samples by {
        assert(is_node(nodes[n], samples, path));
        assert(listed_before(nodes[n].children@[i], nodes[n].children@[j]));
    }
}

} // verus!
