//! The time-ordered flame chart.
//!
//! [`layout`] turns a thread's samples into a flat list of [`Brick`]s in a single
//! pass. Each row corresponds to a stack level (depth 1 is the root) and the x
//! axis counts samples: consecutive samples that share the same ancestry are
//! merged into one wide brick.

use crate::profile::{
    deepest, lemma_weight_sum_grows, retimed, sample_models, stacks_within, weight_sum, FrameId,
    Sample, SampleModel, Thread, ThreadModel,
};
use vstd::prelude::*;

verus! {

/// A single rectangle of a layout.
#[derive(Debug, Clone, Copy, PartialEq, Eq)]
pub struct Brick {
    /// 1-based row; depth 1 is the root frame.
    pub depth: usize,
    /// Where the brick starts: the index of its first sample in the time-ordered
    /// chart, the events to its left in the left-heavy one.
    pub start: u64,
    /// How wide the brick is, in the same unit.
    pub width: u64,
    /// Interned frame; resolve against the owning thread's frame table.
    pub frame: FrameId,
    /// Profiling events of the samples that the brick stands for.
    pub samples: u64,
}

/// What a [`Brick`] holds.
#[verifier::ext_equal]
pub struct BrickModel {
    pub depth: int,
    pub start: int,
    pub width: int,
    pub frame: FrameId,
    pub samples: int,
}

impl BrickModel {
    /// Where the brick ends.
    pub open spec fn end(self) -> int {
        self.start + self.width
    }
}

impl View for Brick {
    type V = BrickModel;

    open spec fn view(&self) -> BrickModel {
        BrickModel {
            depth: self.depth as int,
            start: self.start as int,
            width: self.width as int,
            frame: self.frame,
            samples: self.samples as int,
        }
    }
}

/// What the bricks of a list hold.
pub open spec fn brick_models(bricks: Seq<Brick>) -> Seq<BrickModel> {
    bricks.map_values(|b: Brick| b@)
}

// ---------------------------------------------------------------------------
// The time-ordered layout
// ---------------------------------------------------------------------------

/// A sample's stack from the root to the leaf.
pub open spec fn call_path<T>(sample: SampleModel<T>) -> Seq<FrameId> {
    sample.stack.reverse()
}

/// The length of the longest common prefix of `p` and `q`.
pub open spec fn common_prefix(p: Seq<FrameId>, q: Seq<FrameId>) -> nat
    decreases p.len(),
{
    if p.len() > 0 && q.len() > 0 && p[0] == q[0] {
        1 + common_prefix(p.skip(1), q.skip(1))
    } else {
        0
    }
}

/// How many rows, from the root, the sample at `e` shares with the one before it:
/// none at the start and at the end.
pub open spec fn kept<T>(samples: Seq<SampleModel<T>>, e: int) -> nat {
    if 0 < e < samples.len() {
        common_prefix(call_path(samples[e - 1]), call_path(samples[e]))
    } else {
        0
    }
}

/// The first of the samples up to `i` that share, one with the next, the first
/// `d` rows.
pub open spec fn run_start<T>(samples: Seq<SampleModel<T>>, i: int, d: int) -> int
    decreases i,
{
    if i > 0 && kept(samples, i) >= d {
        run_start(samples, i - 1, d)
    } else {
        i
    }
}

/// The brick in row `d` that ends before the sample at `e`.
pub open spec fn brick_at<T>(samples: Seq<SampleModel<T>>, e: int, d: int) -> BrickModel {
    let start = run_start(samples, e - 1, d);
    BrickModel {
        depth: d,
        start,
        width: e - start,
        frame: call_path(samples[e - 1])[d - 1],
        samples: weight_sum(samples.subrange(start, e)) as int,
    }
}

/// The bricks that end before the sample at `e`, the deepest first.
pub open spec fn closing<T>(samples: Seq<SampleModel<T>>, e: int) -> Seq<BrickModel> {
    let depth = samples[e - 1].stack.len();
    Seq::new((depth - kept(samples, e)) as nat, |k: int| brick_at(samples, e, depth - k))
}

/// The bricks that end before the samples up to `e`, in the order of their ends.
pub open spec fn layout_upto<T>(samples: Seq<SampleModel<T>>, e: int) -> Seq<BrickModel>
    decreases e,
{
    if e <= 0 {
        Seq::empty()
    } else {
        layout_upto(samples, e - 1) + closing(samples, e)
    }
}

/// The flame chart of `samples`.
pub open spec fn chart<T>(samples: Seq<SampleModel<T>>) -> Seq<BrickModel> {
    layout_upto(samples, samples.len() as int)
}

pub proof fn lemma_common_prefix(p: Seq<FrameId>, q: Seq<FrameId>)
    ensures
        common_prefix(p, q) <= p.len(),
        common_prefix(p, q) <= q.len(),
        forall|k: int| 0 <= k < common_prefix(p, q) ==> #[trigger] p[k] == q[k],
        common_prefix(p, q) < p.len() && common_prefix(p, q) < q.len() ==> p[common_prefix(
            p,
            q,
        ) as int] != q[common_prefix(p, q) as int],
    decreases p.len(),
{
    if p.len() > 0 && q.len() > 0 && p[0] == q[0] {
        lemma_common_prefix(p.skip(1), q.skip(1));
        assert forall|k: int| 0 <= k < common_prefix(p, q) implies #[trigger] p[k] == q[k] by {
            if k > 0 {
                assert(p.skip(1)[k - 1] == p[k]);
                assert(q.skip(1)[k - 1] == q[k]);
            }
        }
    }
}

/// A run starts at or before its last sample, and all its samples have the first
/// `d` rows in common.
pub proof fn lemma_run_start<T>(samples: Seq<SampleModel<T>>, i: int, d: int)
    requires
        0 <= i < samples.len(),
        0 <= d <= samples[i].stack.len(),
    ensures
        0 <= run_start(samples, i, d) <= i,
        forall|k: int|
            run_start(samples, i, d) <= k <= i ==> (#[trigger] samples[k]).stack.len() >= d && call_path(
                samples[k],
            ).take(d) == call_path(samples[i]).take(d),
        run_start(samples, i, d) > 0 ==> kept(samples, run_start(samples, i, d)) < d,
        forall|k: int| run_start(samples, i, d) < k <= i ==> #[trigger] kept(samples, k) >= d,
    decreases i,
{
    if i > 0 && kept(samples, i) >= d {
        let p = call_path(samples[i - 1]);
        let q = call_path(samples[i]);
        lemma_common_prefix(p, q);
        assert(p.take(d) =~= q.take(d));
        lemma_run_start(samples, i - 1, d);
    }
}

/// A brick that has been started but not yet closed.
struct Open {
    /// Index of the sample that opened this brick.
    opened_by: usize,
    /// Events of the samples that passed through this brick so far.
    samples: u64,
}

/// The depth-`d` (0-based, root first) frame of a leaf-first stack.
fn frame_at<T>(sample: &Sample<T>, depth0: usize) -> (r: FrameId)
    requires
        depth0 < sample.stack@.len(),
    ensures
        r == call_path(sample@)[depth0 as int],
{
    sample.stack[sample.stack.len() - 1 - depth0]
}

/// The open bricks are those of the rows of the sample before `e`, with the events
/// of the samples before `upto`.
spec fn open_ok<T>(
    open: Seq<Open>,
    samples: Seq<SampleModel<T>>,
    e: int,
    rows: int,
    upto: int,
) -> bool {
    forall|k: int|
        0 <= k < rows ==> {
            &&& (#[trigger] open[k]).opened_by == run_start(samples, e - 1, k + 1)
            &&& open[k].samples == weight_sum(samples.subrange(open[k].opened_by as int, upto))
        }
}

/// Part of a list weighs no more than the whole.
proof fn lemma_weight_of_part<T>(samples: Seq<SampleModel<T>>, a: int, b: int)
    requires
        0 <= a <= b <= samples.len(),
    ensures
        weight_sum(samples.subrange(a, b)) <= weight_sum(samples),
        weight_sum(samples.take(a)) + weight_sum(samples.subrange(a, b)) == weight_sum(
            samples.take(b),
        ),
    decreases b - a,
{
    if a == b {
        assert(samples.subrange(a, b) =~= Seq::empty());
    } else {
        lemma_weight_of_part(samples, a, b - 1);
        assert(samples.subrange(a, b).drop_last() =~= samples.subrange(a, b - 1));
        assert(samples.take(b).drop_last() =~= samples.take(b - 1));
    }
    lemma_weight_sum_grows(samples, b);
}

/// Closes all open bricks with a row above `keep`, emitting them with their end at
/// `end`.
fn close_from<T>(
    bricks: &mut Vec<Brick>,
    open: &mut Vec<Open>,
    samples: &Vec<Sample<T>>,
    keep: usize,
    end: usize,
)
    requires
        0 < end <= samples@.len(),
        keep == kept(sample_models(samples@), end as int),
        keep <= old(open)@.len(),
        old(open)@.len() == samples@[end - 1].stack@.len(),
        forall|k: int|
            keep <= k < old(open)@.len() ==> {
                &&& (#[trigger] old(open)@[k]).opened_by == run_start(
                    sample_models(samples@),
                    end - 1,
                    k + 1,
                )
                &&& old(open)@[k].samples == weight_sum(
                    sample_models(samples@).subrange(old(open)@[k].opened_by as int, end as int),
                )
            },
    ensures
        brick_models(final(bricks)@) == brick_models(old(bricks)@) + closing(
            sample_models(samples@),
            end as int,
        ),
        final(open)@ == old(open)@.take(keep as int),
{
    let ghost all = sample_models(samples@);
    let ghost before = brick_models(bricks@);
    let ghost depth = open@.len() as int;
    let ghost due = closing(all, end as int);
    let mut d: usize = open.len();
    assert(brick_models(bricks@) =~= before + due.take(0));
    while d > keep
        invariant
            0 < end <= samples@.len(),
            keep <= d <= depth,
            all == sample_models(samples@),
            depth == open@.len(),
            depth == samples@[end - 1].stack@.len(),
            keep == kept(all, end as int),
            due == closing(all, end as int),
            *open == *old(open),
            brick_models(bricks@) == before + due.take(depth - d),
            forall|k: int|
                keep <= k < open@.len() ==> {
                    &&& (#[trigger] open@[k]).opened_by == run_start(all, end - 1, k + 1)
                    &&& open@[k].samples == weight_sum(
                        all.subrange(open@[k].opened_by as int, end as int),
                    )
                },
        decreases d,
    {
        let depth0 = d - 1;
        let ghost was = bricks@;
        let start: usize = open[depth0].opened_by;
        proof {
            lemma_run_start(all, end - 1, d as int);
            assert(all[start as int] == samples@[start as int]@);
            assert(call_path(all[start as int]).take(d as int)[depth0 as int] == call_path(
                all[end - 1],
            ).take(d as int)[depth0 as int]);
        }
        let brick = Brick {
            depth: d,
            start: start as u64,
            width: (end - start) as u64,
            frame: frame_at(&samples[start], depth0),
            samples: open[depth0].samples,
        };
        bricks.push(brick);
        proof {
            assert(due[depth - d] == brick_at(all, end as int, d as int));
            assert(brick@ =~= brick_at(all, end as int, d as int));
            assert(brick_models(bricks@) =~= brick_models(was).push(brick@));
            assert(due.take(depth - d + 1) =~= due.take(depth - d).push(due[depth - d]));
            assert(brick_models(bricks@) =~= before + due.take(depth - depth0));
        }
        d = depth0;
    }
    assert(due.take(depth - keep) =~= due);
    open.truncate(keep);
}

/// The events of every brick of the flame chart fit their type.
pub open spec fn bricks_fit<T>(samples: Seq<SampleModel<T>>) -> bool {
    forall|c: int| 0 <= c < chart(samples).len() ==> (#[trigger] chart(samples)[c]).samples
        <= u64::MAX
}

/// The part of a brick up to a sample has no more events than the brick.
proof fn lemma_run_fits<T>(samples: Seq<SampleModel<T>>, i: int, d: int)
    requires
        bricks_fit(samples),
        0 <= i < samples.len(),
        1 <= d <= samples[i].stack.len(),
    ensures
        weight_sum(samples.subrange(run_start(samples, i, d), i + 1)) <= u64::MAX,
{
    let n = samples.len() as int;
    let start = run_start(samples, i, d);
    lemma_run_start(samples, i, d);
    lemma_run_end(samples, i + 1, d);
    let e = run_end(samples, i + 1, d);
    let c = lemma_listed(samples, n, e, d);
    assert(chart(samples)[c].samples <= u64::MAX);
    lemma_weight_of_part(samples, start, i + 1);
    lemma_weight_of_part(samples, start, e);
    lemma_weight_of_part(samples, i + 1, e);
}

/// Where the events of all samples fit, so do those of every brick.
pub proof fn law_bricks_fit<T>(samples: Seq<SampleModel<T>>)
    requires
        weight_sum(samples) <= u64::MAX,
    ensures
        bricks_fit(samples),
{
    assert forall|c: int| 0 <= c < chart(samples).len() implies (#[trigger] chart(
        samples,
    )[c]).samples <= u64::MAX by {
        law_bricks_are_runs(samples, c);
        let b = chart(samples)[c];
        lemma_weight_of_part(samples, b.start, b.end());
    }
}

/// Builds the flame-chart bricks of a thread, in the order of their ends, the
/// deepest first. No brick is left out.
pub fn layout<T>(thread: &Thread<T>) -> (r: Vec<Brick>)
    requires
        bricks_fit(thread@.samples),
    ensures
        brick_models(r@) == chart(thread@.samples),
{
    let samples = &thread.samples;
    let n = samples.len();
    let ghost all = thread@.samples;
    let mut bricks: Vec<Brick> = Vec::new();
    let mut open: Vec<Open> = Vec::new();
    assert(brick_models(bricks@) =~= layout_upto(all, -1));
    for i in 0..n
        invariant
            n == samples@.len(),
            samples == thread.samples,
            all == sample_models(samples@),
            bricks_fit(all),
            brick_models(bricks@) == layout_upto(all, i - 1),
            i == 0 ==> open@.len() == 0,
            i > 0 ==> open@.len() == all[i - 1].stack.len() && open_ok(
                open@,
                all,
                i as int,
                open@.len() as int,
                i as int,
            ),
    {
        let sample = &samples[i];
        let len = sample.stack.len();
        let ghost path = call_path(all[i as int]);
        let ghost prev = call_path(all[i - 1]);
        let ghost opened = open@;

        // Longest root-first prefix shared with the currently open bricks.
        let mut common: usize = 0;
        while common < open.len() && common < len
            invariant
                i < n == samples@.len(),
                all == sample_models(samples@),
                *sample == samples@[i as int],
                len == sample.stack@.len(),
                path == call_path(all[i as int]),
                prev == call_path(all[i - 1]),
                open@ == opened,
                common <= open@.len(),
                common <= len,
                i == 0 ==> open@.len() == 0,
                i > 0 ==> open@.len() == prev.len() && open_ok(
                    open@,
                    all,
                    i as int,
                    open@.len() as int,
                    i as int,
                ),
                forall|k: int| 0 <= k < common ==> #[trigger] prev[k] == path[k],
            ensures
                common <= open@.len(),
                common <= len,
                forall|k: int| 0 <= k < common ==> #[trigger] prev[k] == path[k],
                common < open@.len() && common < len ==> prev[common as int] != path[common as int],
            decreases len - common,
        {
            let by = open[common].opened_by;
            proof {
                let d = common + 1;
                lemma_run_start(all, i - 1, d);
                assert(all[by as int] == samples@[by as int]@);
                assert(call_path(all[by as int]).take(d)[common as int] == prev.take(
                    d,
                )[common as int]);
            }
            if frame_at(&samples[by], common) == frame_at(sample, common) {
                common += 1;
            } else {
                break;
            }
        }
        proof {
            if i > 0 {
                lemma_common_prefix(prev, path);
                assert(common == kept(all, i as int)) by {
                    let c = common_prefix(prev, path);
                    if c < common {
                        assert(prev[c as int] == path[c as int]);
                    } else if common < c {
                        assert(prev[common as int] == path[common as int]);
                    }
                }
            }
        }

        // This sample passes through every surviving open brick.
        let mut k: usize = 0;
        while k < common
            invariant
                k <= common <= open@.len(),
                i < n == samples@.len(),
                all == sample_models(samples@),
                bricks_fit(all),
                *sample == samples@[i as int],
                open@.len() == opened.len(),
                i > 0 ==> common == kept(all, i as int),
                common <= sample.stack@.len(),
                i > 0 ==> opened.len() == all[i - 1].stack.len() && open_ok(
                    opened,
                    all,
                    i as int,
                    opened.len() as int,
                    i as int,
                ),
                i == 0 ==> opened.len() == 0,
                forall|j: int| k <= j < open@.len() ==> #[trigger] open@[j] == opened[j],
                forall|j: int|
                    0 <= j < k ==> {
                        &&& (#[trigger] open@[j]).opened_by == opened[j].opened_by
                        &&& open@[j].samples == weight_sum(
                            all.subrange(open@[j].opened_by as int, i + 1),
                        )
                    },
            decreases common - k,
        {
            proof {
                let s = open@[k as int].opened_by as int;
                assert(open@[k as int] == opened[k as int]);
                lemma_run_start(all, i - 1, k + 1);
                assert(all.subrange(s, i + 1).drop_last() =~= all.subrange(s, i as int));
                assert(all.subrange(s, i + 1).last() == sample@);
                assert(s == run_start(all, i as int, k + 1));
                lemma_run_fits(all, i as int, k + 1);
            }
            open[k].samples = open[k].samples + sample.weight;
            k += 1;
        }

        // Close every brick deeper than the shared prefix; it ends here.
        if i > 0 {
            assert(layout_upto(all, i as int) == layout_upto(all, i - 1) + closing(all, i as int));
            close_from(&mut bricks, &mut open, samples, common, i);
        } else {
            assert(layout_upto(all, 0) =~= layout_upto(all, -1));
        }

        // Open bricks for the remainder of this sample's stack.
        let mut d: usize = common;
        while d < len
            invariant
                common <= d <= len,
                i < n == samples@.len(),
                all == sample_models(samples@),
                *sample == samples@[i as int],
                open@.len() == d,
                forall|j: int|
                    0 <= j < common ==> {
                        &&& (#[trigger] open@[j]).opened_by == opened[j].opened_by
                        &&& open@[j].samples == weight_sum(
                            all.subrange(open@[j].opened_by as int, i + 1),
                        )
                    },
                forall|j: int|
                    common <= j < d ==> {
                        &&& (#[trigger] open@[j]).opened_by == i
                        &&& open@[j].samples == weight_sum(all.subrange(i as int, i + 1))
                    },
            decreases len - d,
        {
            proof {
                let one = all.subrange(i as int, i + 1);
                assert(one.drop_last() =~= Seq::empty());
                assert(one.last() == sample@);
                assert(weight_sum(one.drop_last()) == 0);
            }
            open.push(Open { opened_by: i, samples: sample.weight });
            d += 1;
        }
        proof {
            assert forall|j: int| 0 <= j < open@.len() implies (#[trigger] open@[j]).opened_by
                == run_start(all, i as int, j + 1) by {
                if j < common {
                    assert(opened[j].opened_by == run_start(all, i - 1, j + 1));
                }
            }
        }
    }
    // Close everything still open at the end.
    if n > 0 {
        close_from(&mut bricks, &mut open, samples, 0, n);
    }
    bricks
}

// ---------------------------------------------------------------------------
// Laws of the time-ordered layout
// ---------------------------------------------------------------------------

/// A brick in row `d` ends before the sample at `e`.
pub open spec fn closes<T>(samples: Seq<SampleModel<T>>, e: int, d: int) -> bool {
    0 < e <= samples.len() && kept(samples, e) < d <= samples[e - 1].stack.len()
}

/// The brick at index `i` is one in row `d` that ends before the sample at `e`.
spec fn comes_from<T>(samples: Seq<SampleModel<T>>, upto: int, i: int, e: int, d: int) -> bool {
    &&& closes(samples, e, d)
    &&& e <= upto
    &&& i == layout_upto(samples, e - 1).len() + (samples[e - 1].stack.len() - d)
    &&& layout_upto(samples, upto)[i] == brick_at(samples, e, d)
}

/// No more rows are kept than there are.
proof fn lemma_kept<T>(samples: Seq<SampleModel<T>>, e: int)
    requires
        0 < e <= samples.len(),
    ensures
        kept(samples, e) <= samples[e - 1].stack.len(),
        e < samples.len() ==> kept(samples, e) <= samples[e].stack.len(),
{
    if e < samples.len() {
        lemma_common_prefix(call_path(samples[e - 1]), call_path(samples[e]));
    }
}

/// Every brick of the layout ends somewhere.
proof fn lemma_origin<T>(samples: Seq<SampleModel<T>>, upto: int, i: int) -> (r: (int, int))
    requires
        0 <= upto <= samples.len(),
        0 <= i < layout_upto(samples, upto).len(),
    ensures
        comes_from(samples, upto, i, r.0, r.1),
    decreases upto,
{
    let before = layout_upto(samples, upto - 1);
    if i < before.len() {
        let r = lemma_origin(samples, upto - 1, i);
        assert(layout_upto(samples, upto)[i] == before[i]);
        r
    } else {
        let depth = samples[upto - 1].stack.len() as int;
        let k = i - before.len();
        lemma_kept(samples, upto);
        assert(layout_upto(samples, upto)[i] == closing(samples, upto)[k]);
        (upto, depth - k)
    }
}

/// Every place where a brick ends gives a brick of the layout.
proof fn lemma_listed<T>(samples: Seq<SampleModel<T>>, upto: int, e: int, d: int) -> (i: int)
    requires
        closes(samples, e, d),
        e <= upto <= samples.len(),
    ensures
        0 <= i < layout_upto(samples, upto).len(),
        comes_from(samples, upto, i, e, d),
    decreases upto - e,
{
    if e == upto {
        let i = layout_upto(samples, e - 1).len() + (samples[e - 1].stack.len() - d);
        assert(layout_upto(samples, upto)[i] == closing(samples, e)[samples[e - 1].stack.len() - d]);
        i
    } else {
        let i = lemma_listed(samples, upto - 1, e, d);
        assert(layout_upto(samples, upto)[i] == layout_upto(samples, upto - 1)[i]);
        i
    }
}

/// Two bricks of one row of the layout lie one beside the other: they have no
/// sample in common.
pub proof fn law_rows_do_not_overlap<T>(samples: Seq<SampleModel<T>>, i: int, j: int)
    requires
        0 <= i < j < chart(samples).len(),
        chart(samples)[i].depth == chart(samples)[j].depth,
    ensures
        chart(samples)[i].end() <= chart(samples)[j].start,
{
    let n = samples.len() as int;
    let (e1, d1) = lemma_origin(samples, n, i);
    let (e2, d2) = lemma_origin(samples, n, j);
    lemma_kept(samples, e2);
    lemma_layout_grows(samples, e2, e1 - 1);
    assert(e1 < e2);
    lemma_run_start(samples, e2 - 1, d2);
    if run_start(samples, e2 - 1, d2) < e1 {
        assert(kept(samples, e1) >= d2);
    }
}

/// The layout only grows.
proof fn lemma_layout_grows<T>(samples: Seq<SampleModel<T>>, a: int, b: int)
    ensures
        a <= b ==> layout_upto(samples, a).len() <= layout_upto(samples, b).len(),
    decreases b - a,
{
    if a < b {
        lemma_layout_grows(samples, a, b - 1);
    }
}

/// Where the run in row `d` that goes on at `e` ends.
spec fn run_end<T>(samples: Seq<SampleModel<T>>, e: int, d: int) -> int
    decreases samples.len() - e,
{
    if 0 < e < samples.len() && kept(samples, e) >= d {
        run_end(samples, e + 1, d)
    } else {
        e
    }
}

proof fn lemma_run_end<T>(samples: Seq<SampleModel<T>>, e: int, d: int)
    requires
        0 < e <= samples.len(),
        1 <= d <= samples[e - 1].stack.len(),
    ensures
        e <= run_end(samples, e, d) <= samples.len(),
        closes(samples, run_end(samples, e, d), d),
        run_start(samples, run_end(samples, e, d) - 1, d) == run_start(samples, e - 1, d),
    decreases samples.len() - e,
{
    if e < samples.len() && kept(samples, e) >= d {
        lemma_common_prefix(call_path(samples[e - 1]), call_path(samples[e]));
        lemma_run_end(samples, e + 1, d);
    }
}

/// The run in a row starts no later than that in the row above it.
proof fn lemma_run_start_rows<T>(samples: Seq<SampleModel<T>>, i: int, d: int)
    ensures
        run_start(samples, i, d) <= run_start(samples, i, d + 1),
    decreases i,
{
    if i > 0 && kept(samples, i) >= d {
        lemma_run_start_rows(samples, i - 1, d);
        if kept(samples, i) < d + 1 {
            lemma_run_start_below(samples, i - 1, d);
        }
    }
}

proof fn lemma_run_start_below<T>(samples: Seq<SampleModel<T>>, i: int, d: int)
    ensures
        run_start(samples, i, d) <= i,
    decreases i,
{
    if i > 0 && kept(samples, i) >= d {
        lemma_run_start_below(samples, i - 1, d);
    }
}

/// The brick `p` lies one row below `c`, and `c` lies within it.
pub open spec fn is_parent(p: BrickModel, c: BrickModel) -> bool {
    p.depth == c.depth - 1 && p.start <= c.start && c.end() <= p.end()
}

/// Every brick above the first row lies within exactly one brick of the row below:
/// the flame pyramid is well formed.
pub proof fn law_bricks_nest<T>(samples: Seq<SampleModel<T>>, c: int) -> (p: int)
    requires
        0 <= c < chart(samples).len(),
        chart(samples)[c].depth >= 2,
    ensures
        0 <= p < chart(samples).len(),
        is_parent(chart(samples)[p], chart(samples)[c]),
        forall|q: int|
            0 <= q < chart(samples).len() && is_parent(
                #[trigger] chart(samples)[q],
                chart(samples)[c],
            ) ==> q == p,
{
    let n = samples.len() as int;
    let (e, d) = lemma_origin(samples, n, c);
    let above = d - 1;
    lemma_run_end(samples, e, above);
    let end = run_end(samples, e, above);
    let p = lemma_listed(samples, n, end, above);
    lemma_run_start_rows(samples, e - 1, above);
    lemma_run_start(samples, e - 1, d);
    assert forall|q: int|
        0 <= q < chart(samples).len() && is_parent(
            #[trigger] chart(samples)[q],
            chart(samples)[c],
        ) implies q == p by {
        if q < p {
            law_rows_do_not_overlap(samples, q, p);
        } else if p < q {
            law_rows_do_not_overlap(samples, p, q);
        }
    }
    p
}

/// A brick stands for a maximal run of samples with the same ancestry: they share
/// the rows up to the brick's, whose frame is the brick's, and neither the sample
/// before nor the one after shares them too.
pub proof fn law_bricks_are_runs<T>(samples: Seq<SampleModel<T>>, c: int)
    requires
        0 <= c < chart(samples).len(),
    ensures
        ({
            let b = chart(samples)[c];
            &&& 1 <= b.depth
            &&& 0 <= b.start < b.end() <= samples.len()
            &&& forall|k: int|
                b.start <= k < b.end() ==> {
                    &&& (#[trigger] samples[k]).stack.len() >= b.depth
                    &&& call_path(samples[k]).take(b.depth) == call_path(samples[b.start]).take(
                        b.depth,
                    )
                    &&& call_path(samples[k])[b.depth - 1] == b.frame
                }
            &&& b.start > 0 ==> kept(samples, b.start) < b.depth
            &&& b.end() < samples.len() ==> kept(samples, b.end()) < b.depth
            &&& b.samples == weight_sum(samples.subrange(b.start, b.end()))
        }),
{
    let (e, d) = lemma_origin(samples, samples.len() as int, c);
    lemma_run_start(samples, e - 1, d);
    let b = chart(samples)[c];
    assert forall|k: int| b.start <= k < b.end() implies {
        &&& (#[trigger] samples[k]).stack.len() >= b.depth
        &&& call_path(samples[k]).take(b.depth) == call_path(samples[b.start]).take(b.depth)
        &&& call_path(samples[k])[b.depth - 1] == b.frame
    } by {
        assert(call_path(samples[k]).take(d)[d - 1] == call_path(samples[e - 1]).take(d)[d - 1]);
        assert(samples[b.start].stack.len() >= d);
    }
}

/// Every row of every sample's stack is drawn: a brick of that row stands for the
/// sample.
pub proof fn law_every_row_is_drawn<T>(samples: Seq<SampleModel<T>>, i: int, d: int) -> (c: int)
    requires
        0 <= i < samples.len(),
        1 <= d <= samples[i].stack.len(),
    ensures
        0 <= c < chart(samples).len(),
        chart(samples)[c].depth == d,
        chart(samples)[c].start <= i < chart(samples)[c].end(),
{
    lemma_run_end(samples, i + 1, d);
    lemma_run_start(samples, i, d);
    lemma_listed(samples, samples.len() as int, run_end(samples, i + 1, d), d)
}

/// The events of the bricks of row `d`.
pub open spec fn row_sum(bricks: Seq<BrickModel>, d: int) -> int
    decreases bricks.len(),
{
    if bricks.len() == 0 {
        0
    } else {
        row_sum(bricks.drop_last(), d) + if bricks.last().depth == d {
            bricks.last().samples
        } else {
            0
        }
    }
}

/// The events of the samples that are at least `d` rows deep.
pub open spec fn deep_sum<T>(samples: Seq<SampleModel<T>>, d: int) -> int
    decreases samples.len(),
{
    if samples.len() == 0 {
        0
    } else {
        deep_sum(samples.drop_last(), d) + if samples.last().stack.len() >= d {
            samples.last().weight as int
        } else {
            0
        }
    }
}

pub proof fn lemma_row_sum_add(a: Seq<BrickModel>, b: Seq<BrickModel>, d: int)
    ensures
        row_sum(a + b, d) == row_sum(a, d) + row_sum(b, d),
    decreases b.len(),
{
    if b.len() == 0 {
        assert(a + b =~= a);
    } else {
        lemma_row_sum_add(a, b.drop_last(), d);
        assert((a + b).drop_last() =~= a + b.drop_last());
    }
}

/// Of the bricks that end at one place, at most one is in row `d`.
proof fn lemma_closing_row<T>(samples: Seq<SampleModel<T>>, e: int, d: int, k: int)
    requires
        0 < e <= samples.len(),
        0 <= k <= closing(samples, e).len(),
    ensures
        row_sum(closing(samples, e).take(k), d) == (if kept(samples, e) < d && samples[e
            - 1].stack.len() - k < d <= samples[e - 1].stack.len() {
            brick_at(samples, e, d).samples
        } else {
            0
        }),
    decreases k,
{
    let all = closing(samples, e);
    lemma_kept(samples, e);
    if k > 0 {
        lemma_closing_row(samples, e, d, k - 1);
        assert(all[k - 1] == brick_at(samples, e, samples[e - 1].stack.len() - (k - 1)));
        assert(all.take(k).drop_last() =~= all.take(k - 1));
    }
}

proof fn lemma_rows_account<T>(samples: Seq<SampleModel<T>>, e: int, d: int)
    requires
        0 <= e <= samples.len(),
        d >= 1,
    ensures
        row_sum(layout_upto(samples, e), d) + (if 0 < e && kept(samples, e) >= d {
            weight_sum(samples.subrange(run_start(samples, e - 1, d), e)) as int
        } else {
            0
        }) == deep_sum(samples.take(e), d),
    decreases e,
{
    if e > 0 {
        lemma_rows_account(samples, e - 1, d);
        let depth = samples[e - 1].stack.len() as int;
        let due = closing(samples, e);
        lemma_kept(samples, e);
        lemma_row_sum_add(layout_upto(samples, e - 1), due, d);
        lemma_closing_row(samples, e, d, due.len() as int);
        assert(due.take(due.len() as int) =~= due);
        assert(samples.take(e).drop_last() =~= samples.take(e - 1));
        assert(samples.take(e).last() == samples[e - 1]);
        assert(layout_upto(samples, e) == layout_upto(samples, e - 1) + due);
        if d <= depth {
            lemma_run_start(samples, e - 1, d);
            let s = run_start(samples, e - 1, d);
            assert(samples.subrange(s, e).drop_last() =~= samples.subrange(s, e - 1));
            assert(weight_sum(samples.subrange(s, e)) == weight_sum(samples.subrange(s, e - 1))
                + samples[e - 1].weight);
            if e - 1 > 0 && kept(samples, e - 1) >= d {
                assert(s == run_start(samples, e - 2, d));
            } else {
                assert(s == e - 1);
                assert(samples.subrange(s, e - 1).len() == 0);
                assert(weight_sum(samples.subrange(s, e - 1)) == 0);
            }
        } else if e - 1 > 0 {
            lemma_kept(samples, e - 1);
        }
    }
}

/// The events of the samples that are deep enough are those of each of them together.
pub proof fn law_deep_sum<T>(samples: Seq<SampleModel<T>>, d: int)
    ensures
        deep_sum(samples, d) == samples.fold_left(
            0int,
            |sum: int, s: SampleModel<T>|
                if s.stack.len() >= d {
                    sum + s.weight
                } else {
                    sum
                },
        ),
    decreases samples.len(),
{
    if samples.len() > 0 {
        law_deep_sum(samples.drop_last(), d);
    }
}

/// The bricks of a row together stand for exactly the events of the samples that
/// are at least as deep as the row.
pub proof fn law_rows_account_for_samples<T>(samples: Seq<SampleModel<T>>, d: int)
    requires
        d >= 1,
    ensures
        row_sum(chart(samples), d) == deep_sum(samples, d),
{
    lemma_rows_account(samples, samples.len() as int, d);
    assert(samples.take(samples.len() as int) =~= samples);
}

// ---------------------------------------------------------------------------
// What the layout depends on
// ---------------------------------------------------------------------------

/// The samples have the same stacks.
pub open spec fn same_stacks<T, U>(
    a: Seq<SampleModel<T>>,
    b: Seq<SampleModel<U>>,
) -> bool {
    a.len() == b.len() && forall|i: int|
        0 <= i < a.len() ==> (#[trigger] a[i]).stack == b[i].stack
}

proof fn lemma_kept_same<T, U>(a: Seq<SampleModel<T>>, b: Seq<SampleModel<U>>, e: int)
    requires
        same_stacks(a, b),
    ensures
        kept(a, e) == kept(b, e),
{
    if 0 < e < a.len() {
        assert(a[e - 1].stack == b[e - 1].stack);
        assert(a[e].stack == b[e].stack);
    }
}

proof fn lemma_run_start_same<T, U>(
    a: Seq<SampleModel<T>>,
    b: Seq<SampleModel<U>>,
    i: int,
    d: int,
)
    requires
        same_stacks(a, b),
    ensures
        run_start(a, i, d) == run_start(b, i, d),
    decreases i,
{
    lemma_kept_same(a, b, i);
    if i > 0 && kept(a, i) >= d {
        lemma_run_start_same(a, b, i - 1, d);
    }
}

/// Two bricks lie in the same place.
pub open spec fn same_place(a: BrickModel, b: BrickModel) -> bool {
    a.depth == b.depth && a.start == b.start && a.width == b.width && a.frame == b.frame
}

proof fn lemma_same_places<T, U>(a: Seq<SampleModel<T>>, b: Seq<SampleModel<U>>, upto: int)
    requires
        same_stacks(a, b),
        upto <= a.len(),
    ensures
        layout_upto(a, upto).len() == layout_upto(b, upto).len(),
        forall|c: int|
            0 <= c < layout_upto(a, upto).len() ==> same_place(
                #[trigger] layout_upto(a, upto)[c],
                layout_upto(b, upto)[c],
            ),
    decreases upto,
{
    if upto > 0 {
        lemma_same_places(a, b, upto - 1);
        lemma_kept_same(a, b, upto);
        lemma_kept(a, upto);
        assert(a[upto - 1].stack == b[upto - 1].stack);
        let before = layout_upto(a, upto - 1);
        let depth = a[upto - 1].stack.len() as int;
        assert forall|c: int| 0 <= c < layout_upto(a, upto).len() implies same_place(
            #[trigger] layout_upto(a, upto)[c],
            layout_upto(b, upto)[c],
        ) by {
            if c < before.len() {
                assert(layout_upto(a, upto)[c] == before[c]);
                assert(layout_upto(b, upto)[c] == layout_upto(b, upto - 1)[c]);
            } else {
                let k = c - before.len();
                assert(layout_upto(a, upto)[c] == brick_at(a, upto, depth - k));
                assert(layout_upto(b, upto)[c] == brick_at(b, upto, depth - k));
                lemma_run_start_same(a, b, upto - 1, depth - k);
            }
        }
    }
}

/// The layout depends on the stacks and the weights of the samples, not on their
/// times: samples whose times are written otherwise have the same chart.
pub proof fn law_layout_ignores_times<T, U>(a: Seq<SampleModel<T>>, b: Seq<SampleModel<U>>)
    requires
        same_stacks(a, b),
        forall|i: int| 0 <= i < a.len() ==> (#[trigger] a[i]).weight == b[i].weight,
    ensures
        chart(a) == chart(b),
{
    lemma_same_places(a, b, a.len() as int);
    assert forall|c: int| 0 <= c < chart(a).len() implies chart(a)[c] == chart(b)[c] by {
        law_bricks_are_runs(a, c);
        law_bricks_are_runs(b, c);
        let s = chart(a)[c].start;
        let e = chart(a)[c].end();
        assert(same_place(chart(a)[c], chart(b)[c]));
        lemma_same_weight(a.subrange(s, e), b.subrange(s, e));
    }
    assert(chart(a) =~= chart(b));
}

proof fn lemma_same_weight<T, U>(a: Seq<SampleModel<T>>, b: Seq<SampleModel<U>>)
    requires
        a.len() == b.len(),
        forall|i: int| 0 <= i < a.len() ==> (#[trigger] a[i]).weight == b[i].weight,
    ensures
        weight_sum(a) == weight_sum(b),
    decreases a.len(),
{
    if a.len() > 0 {
        assert(a[a.len() - 1].weight == b[a.len() - 1].weight);
        assert forall|i: int| 0 <= i < a.drop_last().len() implies (
        #[trigger] a.drop_last()[i]).weight == b.drop_last()[i].weight by {
            assert(a[i].weight == b[i].weight);
        }
        lemma_same_weight(a.drop_last(), b.drop_last());
    }
}

/// The brick stands for samples whose stacks start with `path`, in the row of its
/// last frame.
pub open spec fn is_on_path<T>(
    brick: BrickModel,
    samples: Seq<SampleModel<T>>,
    path: Seq<FrameId>,
) -> bool {
    brick.depth == path.len() && call_path(samples[brick.start]).take(brick.depth) == path
}

/// The events of the bricks of a call path.
pub open spec fn path_sum<T>(
    bricks: Seq<BrickModel>,
    samples: Seq<SampleModel<T>>,
    path: Seq<FrameId>,
) -> int
    decreases bricks.len(),
{
    if bricks.len() == 0 {
        0
    } else {
        path_sum(bricks.drop_last(), samples, path) + if is_on_path(
            bricks.last(),
            samples,
            path,
        ) {
            bricks.last().samples
        } else {
            0
        }
    }
}

/// The sample's stack starts, at the root, with `path`.
pub open spec fn passes<T>(sample: SampleModel<T>, path: Seq<FrameId>) -> bool {
    path.len() <= sample.stack.len() && call_path(sample).take(path.len() as int) == path
}

/// The events of the samples whose stack starts with `path`.
pub open spec fn through<T>(samples: Seq<SampleModel<T>>, path: Seq<FrameId>) -> nat
    decreases samples.len(),
{
    if samples.len() == 0 {
        0
    } else {
        through(samples.drop_last(), path) + if passes(samples.last(), path) {
            samples.last().weight as nat
        } else {
            0
        }
    }
}

/// The samples, with their weights only where their stacks start with `path`.
spec fn only_through<T>(samples: Seq<SampleModel<T>>, path: Seq<FrameId>) -> Seq<SampleModel<T>> {
    samples.map_values(
        |s: SampleModel<T>|
            SampleModel {
                weight: if passes(s, path) {
                    s.weight
                } else {
                    0
                },
                ..s
            },
    )
}

proof fn lemma_only_through<T>(samples: Seq<SampleModel<T>>, path: Seq<FrameId>)
    ensures
        deep_sum(only_through(samples, path), path.len() as int) == through(samples, path),
    decreases samples.len(),
{
    if samples.len() > 0 {
        lemma_only_through(samples.drop_last(), path);
        assert(only_through(samples, path).drop_last() =~= only_through(
            samples.drop_last(),
            path,
        ));
    }
}

proof fn lemma_no_weight<T>(samples: Seq<SampleModel<T>>)
    requires
        forall|i: int| 0 <= i < samples.len() ==> (#[trigger] samples[i]).weight == 0,
    ensures
        weight_sum(samples) == 0,
    decreases samples.len(),
{
    if samples.len() > 0 {
        assert(samples[samples.len() - 1].weight == 0);
        assert forall|i: int| 0 <= i < samples.drop_last().len() implies (
        #[trigger] samples.drop_last()[i]).weight == 0 by {
            assert(samples[i].weight == 0);
        }
        lemma_no_weight(samples.drop_last());
    }
}

/// A brick keeps its events where it is on the path, and loses them elsewhere in its
/// row.
proof fn lemma_marked_brick<T>(samples: Seq<SampleModel<T>>, path: Seq<FrameId>, c: int)
    requires
        0 <= c < chart(samples).len(),
        chart(samples)[c].depth == path.len(),
        c < chart(only_through(samples, path)).len(),
        same_place(chart(samples)[c], chart(only_through(samples, path))[c]),
    ensures
        chart(only_through(samples, path))[c].samples == (if is_on_path(
            chart(samples)[c],
            samples,
            path,
        ) {
            chart(samples)[c].samples
        } else {
            0
        }),
{
    let marked = only_through(samples, path);
    let b = chart(samples)[c];
    law_bricks_are_runs(samples, c);
    law_bricks_are_runs(marked, c);
    let part = samples.subrange(b.start, b.end());
    let other = marked.subrange(b.start, b.end());
    assert forall|k: int| b.start <= k < b.end() implies (#[trigger] samples[k]).stack.len()
        >= path.len() && call_path(samples[k]).take(path.len() as int) == call_path(
        samples[b.start],
    ).take(path.len() as int) by {}
    if is_on_path(b, samples, path) {
        assert forall|i: int| 0 <= i < part.len() implies (#[trigger] part[i]).weight
            == other[i].weight by {
            assert(samples[b.start + i].stack.len() >= path.len());
        }
        lemma_same_weight(part, other);
    } else {
        assert forall|i: int| 0 <= i < other.len() implies (#[trigger] other[i]).weight == 0 by {
            assert(samples[b.start + i].stack.len() >= path.len());
        }
        lemma_no_weight(other);
    }
}

proof fn lemma_path_sum<T>(samples: Seq<SampleModel<T>>, path: Seq<FrameId>, n: int)
    requires
        0 <= n <= chart(samples).len(),
        chart(samples).len() == chart(only_through(samples, path)).len(),
        forall|c: int|
            0 <= c < chart(samples).len() ==> same_place(
                #[trigger] chart(samples)[c],
                chart(only_through(samples, path))[c],
            ),
    ensures
        row_sum(chart(only_through(samples, path)).take(n), path.len() as int) == path_sum(
            chart(samples).take(n),
            samples,
            path,
        ),
    decreases n,
{
    if n > 0 {
        let a = chart(samples);
        let b = chart(only_through(samples, path));
        lemma_path_sum(samples, path, n - 1);
        assert(a.take(n).drop_last() =~= a.take(n - 1));
        assert(b.take(n).drop_last() =~= b.take(n - 1));
        assert(same_place(a[n - 1], b[n - 1]));
        if a[n - 1].depth == path.len() {
            lemma_marked_brick(samples, path, n - 1);
        }
    }
}

/// The bricks of a call path together stand for exactly the events of the samples
/// whose stacks start with it.
pub proof fn law_paths_account_for_samples<T>(samples: Seq<SampleModel<T>>, path: Seq<FrameId>)
    requires
        path.len() > 0,
    ensures
        path_sum(chart(samples), samples, path) == through(samples, path),
{
    let marked = only_through(samples, path);
    let n = samples.len() as int;
    lemma_same_places(samples, marked, n);
    lemma_path_sum(samples, path, chart(samples).len() as int);
    assert(chart(samples).take(chart(samples).len() as int) =~= chart(samples));
    assert(chart(marked).take(chart(marked).len() as int) =~= chart(marked));
    law_rows_account_for_samples(marked, path.len() as int);
    lemma_only_through(samples, path);
}

/// A thread whose times were replaced is otherwise the same: its label, its events, its
/// depth and its chart stay, and its stacks still refer to its frames.
pub proof fn law_retimed_threads<T, U, F: Fn(T) -> U>(
    before: ThreadModel<T>,
    after: ThreadModel<U>,
    f: F,
)
    requires
        retimed(before, after, f),
    ensures
        after.label() == before.label(),
        after.ok() == before.ok(),
        weight_sum(after.samples) == weight_sum(before.samples),
        after.max_depth() == before.max_depth(),
        chart(after.samples) == chart(before.samples),
{
    assert forall|i: int| 0 <= i < after.samples.len() implies (#[trigger] after.samples[i]).stack
        == before.samples[i].stack && after.samples[i].weight == before.samples[i].weight by {}
    law_layout_ignores_times(after.samples, before.samples);
    lemma_same_weight(after.samples, before.samples);
    lemma_same_depth(after.samples, before.samples);
    let n = before.frames.len() as int;
    if stacks_within(before.samples, n) {
        assert forall|i: int, j: int|
            0 <= i < after.samples.len() && 0 <= j < after.samples[i].stack.len() implies (
        #[trigger] after.samples[i].stack[j] as int) < n by {
            assert((before.samples[i].stack[j] as int) < n);
        }
    }
    if stacks_within(after.samples, n) {
        assert forall|i: int, j: int|
            0 <= i < before.samples.len() && 0 <= j < before.samples[i].stack.len() implies (
        #[trigger] before.samples[i].stack[j] as int) < n by {
            assert(after.samples[i].stack == before.samples[i].stack);
            assert((after.samples[i].stack[j] as int) < n);
        }
    }
}

proof fn lemma_same_depth<T, U>(a: Seq<SampleModel<T>>, b: Seq<SampleModel<U>>)
    requires
        same_stacks(a, b),
    ensures
        deepest(a) == deepest(b),
    decreases a.len(),
{
    if a.len() > 0 {
        assert(a[a.len() - 1].stack == b[a.len() - 1].stack);
        assert forall|i: int| 0 <= i < a.drop_last().len() implies (
        #[trigger] a.drop_last()[i]).stack == b.drop_last()[i].stack by {
            assert(a[i].stack == b[i].stack);
        }
        lemma_same_depth(a.drop_last(), b.drop_last());
    }
}

// ---------------------------------------------------------------------------
// The bricks that `layout` gives
// ---------------------------------------------------------------------------

/// The two stacks, both leaf first, have their `d` outermost frames in common.
pub open spec fn shares_rows(a: Seq<FrameId>, b: Seq<FrameId>, d: int) -> bool {
    &&& d <= a.len()
    &&& d <= b.len()
    &&& forall|r: int| 1 <= r <= d ==> a[a.len() - r] == #[trigger] b[b.len() - r]
}

proof fn lemma_shares_rows<T>(a: SampleModel<T>, b: SampleModel<T>, d: int)
    requires
        0 <= d,
    ensures
        shares_rows(a.stack, b.stack, d) <==> d <= common_prefix(call_path(a), call_path(b)),
        shares_rows(a.stack, b.stack, d) <==> d <= a.stack.len() && d <= b.stack.len()
            && call_path(a).take(d) == call_path(b).take(d),
{
    let p = call_path(a);
    let q = call_path(b);
    let n = common_prefix(p, q) as int;
    lemma_common_prefix(p, q);
    if shares_rows(a.stack, b.stack, d) {
        assert forall|k: int| 0 <= k < d implies #[trigger] p[k] == q[k] by {
            assert(a.stack[a.stack.len() - (k + 1)] == b.stack[b.stack.len() - (k + 1)]);
        }
        assert(p.take(d) =~= q.take(d));
        if n < d {
            assert(p[n] == q[n]);
        }
    }
    if d <= n || (d <= a.stack.len() && d <= b.stack.len() && p.take(d) == q.take(d)) {
        assert forall|r: int| 1 <= r <= d implies a.stack[a.stack.len() - r]
            == #[trigger] b.stack[b.stack.len() - r] by {
            assert(p.take(d)[r - 1] == p[r - 1]);
            assert(q.take(d)[r - 1] == q[r - 1]);
            assert(p[r - 1] == q[r - 1]);
        }
    }
}

/// Every brick is one run of consecutive samples whose stacks have all rows up to the
/// brick's in common, as wide as it can be: the sample before it and the one after it
/// do not share those rows. It has the frame of its row and the events of its samples.
pub proof fn law_layout_merges_shared_ancestry<T>(thread: Thread<T>, bricks: Seq<Brick>, c: int)
    requires
        brick_models(bricks) == chart(thread@.samples),
        0 <= c < bricks.len(),
    ensures
        ({
            let b = bricks[c];
            let s = thread.samples@;
            let end = b.start + b.width;
            &&& 1 <= b.depth
            &&& b.start < end <= s.len()
            &&& forall|k: int|
                b.start <= k < end ==> {
                    &&& shares_rows(
                        (#[trigger] s[k]).stack@,
                        s[b.start as int].stack@,
                        b.depth as int,
                    )
                    &&& s[k].stack@[s[k].stack@.len() - b.depth] == b.frame
                }
            &&& b.start > 0 ==> !shares_rows(
                s[b.start - 1].stack@,
                s[b.start as int].stack@,
                b.depth as int,
            )
            &&& end < s.len() ==> !shares_rows(
                s[end].stack@,
                s[b.start as int].stack@,
                b.depth as int,
            )
            &&& b.samples == s.subrange(b.start as int, end).fold_left(
                0int,
                |sum: int, x: Sample<T>| sum + x.weight,
            )
        }),
{
    let b = bricks[c];
    let s = thread.samples@;
    let all = thread@.samples;
    let start = b.start as int;
    let end = b.start + b.width;
    let d = b.depth as int;
    assert(b@ == brick_models(bricks)[c]);
    law_bricks_are_runs(all, c);
    assert forall|k: int| start <= k < end implies {
        &&& shares_rows((#[trigger] s[k]).stack@, s[start].stack@, d)
        &&& s[k].stack@[s[k].stack@.len() - d] == b.frame
    } by {
        assert(all[k] == s[k]@ && all[start] == s[start]@);
        assert(all[k].stack.len() >= d && all[start].stack.len() >= d);
        lemma_shares_rows(all[k], all[start], d);
    }
    if start > 0 {
        assert(all[start - 1] == s[start - 1]@ && all[start] == s[start]@);
        lemma_shares_rows(all[start - 1], all[start], d);
    }
    if end < s.len() {
        assert(all[end] == s[end]@ && all[end - 1] == s[end - 1]@ && all[start] == s[start]@);
        lemma_shares_rows(all[end - 1], all[end], d);
        lemma_shares_rows(all[end], all[start], d);
        assert(all[end - 1].stack.len() >= d);
    }
    lemma_events_of(s.subrange(start, end), all.subrange(start, end));
}

proof fn lemma_events_of<T>(samples: Seq<Sample<T>>, models: Seq<SampleModel<T>>)
    requires
        models =~= sample_models(samples),
    ensures
        weight_sum(models) == samples.fold_left(0int, |sum: int, x: Sample<T>| sum + x.weight),
    decreases samples.len(),
{
    if samples.len() > 0 {
        assert(models.drop_last() =~= sample_models(samples.drop_last()));
        lemma_events_of(samples.drop_last(), models.drop_last());
        assert(models.last() == samples.last()@);
    }
}

/// Every row of every sample is drawn by exactly one brick.
pub proof fn law_layout_draws_each_row_once<T>(
    thread: Thread<T>,
    bricks: Seq<Brick>,
    k: int,
    d: int,
) -> (c: int)
    requires
        brick_models(bricks) == chart(thread@.samples),
        0 <= k < thread.samples@.len(),
        1 <= d <= thread.samples@[k].stack@.len(),
    ensures
        0 <= c < bricks.len(),
        bricks[c].depth == d,
        bricks[c].start <= k < bricks[c].start + bricks[c].width,
        forall|q: int|
            0 <= q < bricks.len() && (#[trigger] bricks[q]).depth == d && bricks[q].start <= k
                < bricks[q].start + bricks[q].width ==> q == c,
{
    let all = thread@.samples;
    assert(all[k] == thread.samples@[k]@);
    let c = law_every_row_is_drawn(all, k, d);
    assert(bricks[c]@ == brick_models(bricks)[c]);
    assert forall|q: int|
        0 <= q < bricks.len() && (#[trigger] bricks[q]).depth == d && bricks[q].start <= k
            < bricks[q].start + bricks[q].width implies q == c by {
        assert(bricks[q]@ == brick_models(bricks)[q]);
        if q < c {
            law_rows_do_not_overlap(all, q, c);
        } else if c < q {
            law_rows_do_not_overlap(all, c, q);
        }
    }
    c
}

/// The bricks come in the order of their ends, and those that end together the deepest
/// first.
pub proof fn law_layout_is_in_order<T>(thread: Thread<T>, bricks: Seq<Brick>, i: int, j: int)
    requires
        brick_models(bricks) == chart(thread@.samples),
        0 <= i < j < bricks.len(),
    ensures
        bricks[i].start + bricks[i].width < bricks[j].start + bricks[j].width || (bricks[i].start
            + bricks[i].width == bricks[j].start + bricks[j].width && bricks[i].depth
            > bricks[j].depth),
{
    let all = thread@.samples;
    let n = all.len() as int;
    assert(bricks[i]@ == brick_models(bricks)[i]);
    assert(bricks[j]@ == brick_models(bricks)[j]);
    let (e1, d1) = lemma_origin(all, n, i);
    let (e2, d2) = lemma_origin(all, n, j);
    lemma_layout_grows(all, e2, e1 - 1);
}

} // verus!
