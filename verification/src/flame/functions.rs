//! Per-function aggregation: which samples a function was the leaf of, and which it
//! was on the stack of.

use crate::flame::call_tree::{
    ending, fan_out, frames_of_nodes, has_frame, is_call_tree, is_level, is_node, lemma_fan_out,
    lemma_through_root, occurs, CallNode, CallTree,
};
use crate::flame::layout::{call_path, deep_sum, passes};
use crate::profile::{
    lemma_weight_sum_grows, stacks_within, weight_sum, FrameId, Sample, SampleModel, Thread,
    ThreadModel,
};
use crate::sort::{in_order, lemma_same_values, sort, Ranked};
use crate::text::{comes_before, law_text_before, lemma_text_order, text_before};
use vstd::hash_map::StringHashMap;
use vstd::prelude::*;

verus! {

// ---------------------------------------------------------------------------
// Which samples a function is in
// ---------------------------------------------------------------------------

/// The function `key` is the leaf of sample `i`.
pub open spec fn is_leaf<T>(t: ThreadModel<T>, i: int, key: Seq<char>) -> bool {
    t.samples[i].stack.len() > 0 && t.key(t.samples[i].stack[0]) == key
}

/// The function `key` is among the `m` innermost frames of sample `i`.
pub open spec fn is_among<T>(t: ThreadModel<T>, i: int, m: int, key: Seq<char>) -> bool {
    exists|j: int| 0 <= j < m && t.key(#[trigger] t.samples[i].stack[j]) == key
}

/// The function `key` is on the stack of sample `i`.
pub open spec fn is_on_stack<T>(t: ThreadModel<T>, i: int, key: Seq<char>) -> bool {
    is_among(t, i, t.samples[i].stack.len() as int, key)
}

/// The function `key` is on the stack of one of the first `n` samples.
pub open spec fn is_sampled<T>(t: ThreadModel<T>, n: int, key: Seq<char>) -> bool {
    exists|i: int| 0 <= i < n && #[trigger] is_on_stack(t, i, key)
}

/// The first `n` samples of which `key` is the leaf, in order.
pub open spec fn leaf_samples<T>(t: ThreadModel<T>, key: Seq<char>, n: int) -> Seq<usize>
    decreases n,
{
    if n <= 0 {
        Seq::empty()
    } else if is_leaf(t, n - 1, key) {
        leaf_samples(t, key, n - 1).push((n - 1) as usize)
    } else {
        leaf_samples(t, key, n - 1)
    }
}

/// The first `n` samples that have `key` on the stack, in order, each once.
pub open spec fn stack_samples<T>(t: ThreadModel<T>, key: Seq<char>, n: int) -> Seq<usize>
    decreases n,
{
    if n <= 0 {
        Seq::empty()
    } else if is_on_stack(t, n - 1, key) {
        stack_samples(t, key, n - 1).push((n - 1) as usize)
    } else {
        stack_samples(t, key, n - 1)
    }
}

/// The events of the samples of a list.
pub open spec fn events_at<T>(samples: Seq<SampleModel<T>>, list: Seq<usize>) -> nat
    decreases list.len(),
{
    if list.len() == 0 {
        0
    } else {
        events_at(samples, list.drop_last()) + samples[list.last() as int].weight as nat
    }
}

/// The samples of a list come in order and are among the first `n`.
pub open spec fn ascending(list: Seq<usize>, n: int) -> bool {
    &&& forall|a: int| 0 <= a < list.len() ==> (#[trigger] list[a] as int) < n
    &&& forall|a: int, b: int| 0 <= a < b < list.len() ==> #[trigger] list[a] < #[trigger] list[b]
}

pub proof fn lemma_lists_ascend<T>(t: ThreadModel<T>, key: Seq<char>, n: int)
    requires
        0 <= n <= usize::MAX,
    ensures
        ascending(leaf_samples(t, key, n), n),
        ascending(stack_samples(t, key, n), n),
    decreases n,
{
    if n > 0 {
        lemma_lists_ascend(t, key, n - 1);
    }
}

/// Events of samples in order are events of the thread.
pub proof fn lemma_events_bounded<T>(samples: Seq<SampleModel<T>>, list: Seq<usize>, n: int)
    requires
        ascending(list, n),
        0 <= n <= samples.len(),
    ensures
        events_at(samples, list) <= weight_sum(samples.take(n)),
    decreases list.len(),
{
    if list.len() > 0 {
        let m = list.last() as int;
        let rest = list.drop_last();
        assert(list[list.len() - 1] == m);
        assert(ascending(rest, m)) by {
            assert forall|a: int| 0 <= a < rest.len() implies (#[trigger] rest[a] as int) < m by {
                assert(list[a] < list[list.len() - 1]);
            }
            assert forall|a: int, b: int| 0 <= a < b < rest.len() implies #[trigger] rest[a]
                < #[trigger] rest[b] by {
                assert(list[a] < list[b]);
            }
        }
        lemma_events_bounded(samples, rest, m);
        assert(samples.take(m + 1).drop_last() =~= samples.take(m));
        lemma_weight_sum_grows(samples.take(n), m + 1);
        assert(samples.take(n).take(m + 1) =~= samples.take(m + 1));
    }
}

// ---------------------------------------------------------------------------
// Collecting the samples of every function
// ---------------------------------------------------------------------------

/// One function and the samples that it is in.
struct Usage {
    key: String,
    self_in: Vec<usize>,
    total_in: Vec<usize>,
}

/// The usage holds the samples of its function, of sample `i` only its `m`
/// innermost frames.
spec fn usage_ok<T>(u: Usage, t: ThreadModel<T>, i: int, m: int) -> bool {
    &&& u.self_in@ == leaf_samples(t, u.key@, if m > 0 { i + 1 } else { i })
    &&& u.total_in@ == if is_among(t, i, m, u.key@) {
        stack_samples(t, u.key@, i).push(i as usize)
    } else {
        stack_samples(t, u.key@, i)
    }
}

/// There is one usage for each function of the samples before `i` and of the `m`
/// innermost frames of sample `i`, and the index finds it.
spec fn usages_ok<T>(
    usages: Seq<Usage>,
    index: Map<Seq<char>, usize>,
    t: ThreadModel<T>,
    i: int,
    m: int,
) -> bool {
    &&& forall|u: int| 0 <= u < usages.len() ==> usage_ok(#[trigger] usages[u], t, i, m)
    &&& forall|k: Seq<char>| #[trigger]
        index.dom().contains(k) <==> is_sampled(t, i, k) || is_among(t, i, m, k)
    &&& index_ok(usages, index)
}

/// The index leads from every key to its usage.
spec fn index_ok(usages: Seq<Usage>, index: Map<Seq<char>, usize>) -> bool {
    &&& forall|k: Seq<char>| #[trigger]
        index.dom().contains(k) ==> index[k] < usages.len() && usages[index[k] as int].key@ == k
    &&& forall|u: int|
        0 <= u < usages.len() ==> index.dom().contains((#[trigger] usages[u]).key@)
            && index[usages[u].key@] == u
}

/// Nothing of a function that was not sampled.
proof fn lemma_unsampled<T>(t: ThreadModel<T>, key: Seq<char>, n: int)
    requires
        !is_sampled(t, n, key),
    ensures
        leaf_samples(t, key, n) == Seq::<usize>::empty(),
        stack_samples(t, key, n) == Seq::<usize>::empty(),
    decreases n,
{
    if n > 0 {
        assert(!is_on_stack(t, n - 1, key));
        if is_leaf(t, n - 1, key) {
            assert(t.key(t.samples[n - 1].stack[0]) == key);
        }
        if is_sampled(t, n - 1, key) {
            let i = choose|i: int| 0 <= i < n - 1 && #[trigger] is_on_stack(t, i, key);
            assert(0 <= i < n && is_on_stack(t, i, key));
        }
        lemma_unsampled(t, key, n - 1);
    }
}

/// Finds the usage of `key`, adding an empty one where there is none.
fn usage_of(usages: &mut Vec<Usage>, index: &mut StringHashMap<usize>, key: &str) -> (r: usize)
    requires
        index_ok(old(usages)@, old(index)@),
    ensures
        index_ok(final(usages)@, final(index)@),
        r < final(usages)@.len(),
        final(usages)@[r as int].key@ == key@,
        final(index)@.dom() == old(index)@.dom().insert(key@),
        old(index)@.dom().contains(key@) ==> final(usages)@ == old(usages)@,
        !old(index)@.dom().contains(key@) ==> {
            &&& final(usages)@.len() == old(usages)@.len() + 1
            &&& final(usages)@.take(old(usages)@.len() as int) == old(usages)@
            &&& r == old(usages)@.len()
            &&& final(usages)@[r as int].self_in@.len() == 0
            &&& final(usages)@[r as int].total_in@.len() == 0
        },
{
    match index.get(key) {
        Some(u) => {
            assert(index@.dom().insert(key@) =~= index@.dom());
            *u
        },
        None => {
            let u = usages.len();
            let ghost before = usages@;
            usages.push(
                Usage { key: key.to_string(), self_in: Vec::new(), total_in: Vec::new() },
            );
            index.insert(key.to_string(), u);
            proof {
                assert(usages@.take(u as int) =~= before);
                assert forall|v: int| 0 <= v < usages@.len() implies index@.dom().contains(
                    (#[trigger] usages@[v]).key@,
                ) && index@[usages@[v].key@] == v by {
                    if v < u {
                        assert(usages@[v] == before[v]);
                    }
                }
                assert forall|k: Seq<char>| #[trigger] index@.dom().contains(k) implies index@[k]
                    < usages@.len() && usages@[index@[k] as int].key@ == k by {
                    if k != key@ {
                        assert(old(index)@.dom().contains(k));
                        assert(before[old(index)@[k] as int].key@ == k);
                    }
                }
            }
            u
        },
    }
}

/// Counts frame `m` of sample `i`.
fn count_frame<T>(
    thread: &Thread<T>,
    usages: &mut Vec<Usage>,
    index: &mut StringHashMap<usize>,
    i: usize,
    m: usize,
)
    requires
        stacks_within(thread@.samples, thread@.frames.len() as int),
        i < thread@.samples.len(),
        m < thread@.samples[i as int].stack.len(),
        usages_ok(old(usages)@, old(index)@, thread@, i as int, m as int),
    ensures
        usages_ok(final(usages)@, final(index)@, thread@, i as int, m + 1),
{
    let ghost t = thread@;
    let ghost before = usages@;
    let id = thread.samples[i].stack[m];
    assert(t.samples[i as int] == thread.samples@[i as int]@);
    assert(t.samples[i as int].stack[m as int] == id);
    let key = thread.key(id);
    let u = usage_of(usages, index, key);
    let ghost found = usages@;
    let ghost fresh = !old(index)@.dom().contains(key@);
    proof {
        if fresh {
            lemma_unsampled(t, key@, i as int);
        }
        lemma_lists_ascend(t, key@, i as int);
        if !fresh {
            assert(found[u as int] == before[u as int]);
            assert(usage_ok(before[u as int], t, i as int, m as int));
        } else {
            if m > 0 && is_leaf(t, i as int, key@) {
                assert(t.key(t.samples[i as int].stack[0]) == key@);
                assert(is_among(t, i as int, m as int, key@));
            }
            assert(found[u as int].self_in@ =~= Seq::<usize>::empty());
            assert(found[u as int].total_in@ =~= Seq::<usize>::empty());
        }
        assert(usage_ok(found[u as int], t, i as int, m as int));
    }
    if m == 0 {
        usages[u].self_in.push(i);
    }
    let count = usages[u].total_in.len();
    let counted = count > 0 && usages[u].total_in[count - 1] == i;
    assert(counted == is_among(t, i as int, m as int, key@));
    if !counted {
        usages[u].total_in.push(i);
    }
    proof {
        assert forall|k: Seq<char>| #[trigger] is_among(t, i as int, m + 1, k) <==> is_among(
            t,
            i as int,
            m as int,
            k,
        ) || k == key@ by {
            if is_among(t, i as int, m + 1, k) {
                let j = choose|j: int|
                    0 <= j < m + 1 && t.key(#[trigger] t.samples[i as int].stack[j]) == k;
                if j < m {
                    assert(is_among(t, i as int, m as int, k));
                }
            }
            if is_among(t, i as int, m as int, k) {
                let j = choose|j: int|
                    0 <= j < m && t.key(#[trigger] t.samples[i as int].stack[j]) == k;
                assert(0 <= j < m + 1);
            }
            assert(t.key(t.samples[i as int].stack[m as int]) == key@);
        }
        assert forall|v: int| 0 <= v < usages@.len() implies usage_ok(
            #[trigger] usages@[v],
            t,
            i as int,
            m + 1,
        ) by {
            if v != u {
                assert(usages@[v] == found[v]);
                assert(found[v] == before[v]);
                assert(usage_ok(before[v], t, i as int, m as int));
                assert(found[v].key@ != key@) by {
                    assert(index@[found[v].key@] == v);
                }
                if m == 0 {
                    assert(!is_leaf(t, i as int, found[v].key@));
                }
            } else {
                if m == 0 {
                    assert(is_leaf(t, i as int, key@));
                }
            }
        }
        assert(index_ok(usages@, index@)) by {
            assert forall|v: int| 0 <= v < usages@.len() implies (#[trigger] usages@[v]).key
                == found[v].key by {}
        }
        assert forall|k: Seq<char>| #[trigger]
            index@.dom().contains(k) <==> is_sampled(t, i as int, k) || is_among(
            t,
            i as int,
            m + 1,
            k,
        ) by {
            assert(index@.dom().contains(k) <==> old(index)@.dom().contains(k) || k == key@);
        }
    }
}

/// The samples of every function of a thread.
fn collect_usages<T>(thread: &Thread<T>) -> (r: (Vec<Usage>, StringHashMap<usize>))
    requires
        stacks_within(thread@.samples, thread@.frames.len() as int),
    ensures
        usages_ok(r.0@, r.1@, thread@, thread@.samples.len() as int, 0),
{
    let mut usages: Vec<Usage> = Vec::new();
    let mut index: StringHashMap<usize> = StringHashMap::new();
    let n = thread.samples.len();
    for i in 0..n
        invariant
            n == thread@.samples.len(),
            stacks_within(thread@.samples, thread@.frames.len() as int),
            usages_ok(usages@, index@, thread@, i as int, 0),
    {
        let depth = thread.samples[i].stack.len();
        assert(thread@.samples[i as int] == thread.samples@[i as int]@);
        for m in 0..depth
            invariant
                i < n,
                n == thread@.samples.len(),
                depth == thread@.samples[i as int].stack.len(),
                stacks_within(thread@.samples, thread@.frames.len() as int),
                usages_ok(usages@, index@, thread@, i as int, m as int),
        {
            count_frame(thread, &mut usages, &mut index, i, m);
        }
        proof {
            let t = thread@;
            assert forall|u: int| 0 <= u < usages@.len() implies usage_ok(
                #[trigger] usages@[u],
                t,
                i + 1,
                0,
            ) by {
                assert(usage_ok(usages@[u], t, i as int, depth as int));
            }
            assert forall|k: Seq<char>| #[trigger] is_sampled(t, i + 1, k) <==> is_sampled(t, i as int, k)
                || is_among(t, i as int, depth as int, k) by {
                if is_sampled(t, i + 1, k) {
                    let j = choose|j: int| 0 <= j < i + 1 && #[trigger] is_on_stack(t, j, k);
                    if j < i {
                        assert(is_sampled(t, i as int, k));
                    }
                }
                if is_sampled(t, i as int, k) {
                    let j = choose|j: int| 0 <= j < i && #[trigger] is_on_stack(t, j, k);
                    assert(0 <= j < i + 1 && is_on_stack(t, j, k));
                }
                if is_among(t, i as int, depth as int, k) {
                    assert(is_on_stack(t, i as int, k));
                }
            }
            assert forall|k: Seq<char>| #[trigger]
                index@.dom().contains(k) <==> is_sampled(t, i + 1, k) || is_among(
                t,
                i + 1,
                0,
                k,
            ) by {
                assert(index@.dom().contains(k) <==> is_sampled(t, i as int, k) || is_among(
                    t,
                    i as int,
                    depth as int,
                    k,
                ));
            }
        }
    }
    (usages, index)
}

// ---------------------------------------------------------------------------
// Time per function
// ---------------------------------------------------------------------------

/// The samples that make up the inclusive and the exclusive time of one function.
#[derive(Debug, Clone, Default, PartialEq, Eq)]
pub struct Stats {
    /// The samples that have the function anywhere on the stack, in order, each once.
    pub total_in: Vec<usize>,
    /// The samples of which the function is the leaf, in order.
    pub self_in: Vec<usize>,
}

/// The statistics are those of the functions of the thread: under each key the samples
/// of which it is the leaf, and those that have it on the stack.
pub open spec fn is_symbol_stats<T>(stats: Map<Seq<char>, Stats>, t: ThreadModel<T>) -> bool {
    &&& forall|key: Seq<char>| #[trigger]
        stats.dom().contains(key) <==> is_sampled(t, t.samples.len() as int, key)
    &&& forall|key: Seq<char>|
        stats.dom().contains(key) ==> {
            &&& (#[trigger] stats[key]).self_in@ == leaf_samples(t, key, t.samples.len() as int)
            &&& stats[key].total_in@ == stack_samples(t, key, t.samples.len() as int)
        }
}

/// The samples that each function of a thread is in, by [`Frame::key`](crate::profile::Frame::key).
/// A function that recurses is counted once per sample, and only the leaf of a
/// sample has it as its own.
pub fn symbol_stats<T>(thread: &Thread<T>) -> (r: StringHashMap<Stats>)
    requires
        stacks_within(thread@.samples, thread@.frames.len() as int),
    ensures
        is_symbol_stats(r@, thread@),
{
    let (usages, index) = collect_usages(thread);
    let ghost t = thread@;
    let ghost n = t.samples.len() as int;
    let ghost all = usages@;
    let ghost found = index@;
    let mut stats: StringHashMap<Stats> = StringHashMap::new();
    for usage in it: usages
        invariant
            it.seq() == all,
            n == t.samples.len(),
            usages_ok(all, found, t, n, 0),
            forall|key: Seq<char>| #[trigger]
                stats@.dom().contains(key) <==> found.dom().contains(key) && found[key]
                    < it.index(),
            forall|key: Seq<char>|
                stats@.dom().contains(key) ==> {
                    &&& (#[trigger] stats@[key]).self_in@ == leaf_samples(t, key, n)
                    &&& stats@[key].total_in@ == stack_samples(t, key, n)
                },
    {
        proof {
            assert(usage == all[it.index() as int]);
            assert(usage_ok(all[it.index() as int], t, n, 0));
            assert(found[usage.key@] == it.index());
            assert forall|key: Seq<char>|
                found.dom().contains(key) && found[key] == it.index() implies key == usage.key@ by {
                assert(all[found[key] as int].key@ == key);
            }
        }
        stats.insert(usage.key, Stats { total_in: usage.total_in, self_in: usage.self_in });
    }
    proof {
        assert forall|key: Seq<char>| #[trigger]
            stats@.dom().contains(key) <==> is_sampled(t, n, key) by {
            assert(found.dom().contains(key) <==> is_sampled(t, n, key) || is_among(t, n, 0, key));
            if found.dom().contains(key) {
                assert(found[key] < all.len());
            }
        }
    }
    stats
}

/// The two samples whose timestamps give the time of sample `i` of `n`, the later first.
pub open spec fn gap_of(i: int, n: int) -> Option<(int, int)> {
    if i + 1 < n {
        Some((i + 1, i))
    } else if n >= 2 {
        Some((i, i - 1))
    } else {
        None
    }
}

/// Which two samples' timestamps give the time of sample `i` of `n`: it lasts until
/// the next sample, and the last one as long as the one before it. The result is the
/// later and the earlier sample; a thread's only sample takes no time.
pub fn sample_gap(i: usize, n: usize) -> (r: Option<(usize, usize)>)
    requires
        i < n,
    ensures
        (match r {
            Some((later, earlier)) => gap_of(i as int, n as int) == Some(
                (later as int, earlier as int),
            ),
            None => gap_of(i as int, n as int) is None,
        }),
        r == (if i + 1 < n {
            Some(((i + 1) as usize, i))
        } else if n >= 2 {
            Some((i, (i - 1) as usize))
        } else {
            None
        }),
{
    if i + 1 < n {
        Some((i + 1, i))
    } else if n >= 2 {
        Some((i, i - 1))
    } else {
        None
    }
}

// ---------------------------------------------------------------------------
// The flat profile
// ---------------------------------------------------------------------------

/// One row of the flat function table.
#[derive(Debug, Clone, Default, PartialEq, Eq)]
pub struct FunctionStat {
    /// Function identity ([`Frame::key`](crate::profile::Frame::key)).
    pub key: String,
    /// Events for which this function was the leaf (its exclusive weight).
    pub self_events: u64,
    /// Events whose stack included this function, counted once per sample even when
    /// it recurses (its inclusive weight).
    pub total_events: u64,
    /// The samples that make up the exclusive time.
    pub self_in: Vec<usize>,
    /// The samples that make up the inclusive time.
    pub total_in: Vec<usize>,
}

/// The rows are listed by descending exclusive events, then by descending inclusive
/// events, then by name.
pub open spec fn hotter(a: FunctionStat, b: FunctionStat) -> bool {
    ||| a.self_events > b.self_events
    ||| a.self_events == b.self_events && a.total_events > b.total_events
    ||| a.self_events == b.self_events && a.total_events == b.total_events && text_before(
        a.key@,
        b.key@,
    )
}

/// The row holds the samples and the events of its function.
pub open spec fn is_row<T>(row: FunctionStat, t: ThreadModel<T>) -> bool {
    &&& row.self_in@ == leaf_samples(t, row.key@, t.samples.len() as int)
    &&& row.total_in@ == stack_samples(t, row.key@, t.samples.len() as int)
    &&& row.self_events == events_at(t.samples, row.self_in@)
    &&& row.total_events == events_at(t.samples, row.total_in@)
}

/// Some row is that of `key`.
pub open spec fn has_row(rows: Seq<FunctionStat>, key: Seq<char>) -> bool {
    exists|i: int| 0 <= i < rows.len() && (#[trigger] rows[i]).key@ == key
}

/// The rows are those of the functions of the thread, one each, hottest first.
pub open spec fn is_flat_profile<T>(rows: Seq<FunctionStat>, t: ThreadModel<T>) -> bool {
    &&& forall|i: int, j: int|
        0 <= i < j < rows.len() ==> hotter(#[trigger] rows[i], #[trigger] rows[j])
    &&& forall|key: Seq<char>| #[trigger]
        has_row(rows, key) <==> is_sampled(t, t.samples.len() as int, key)
    &&& forall|i: int| 0 <= i < rows.len() ==> is_row(#[trigger] rows[i], t)
}

impl Ranked for FunctionStat {
    open spec fn precedes(&self, other: &Self) -> bool {
        hotter(*self, *other)
    }

    proof fn asymmetric(a: &Self, b: &Self) {
        lemma_text_order(a.key@, b.key@, a.key@);
    }

    proof fn transitive(a: &Self, b: &Self, c: &Self) {
        lemma_text_order(a.key@, b.key@, c.key@);
        lemma_text_order(b.key@, c.key@, a.key@);
        lemma_text_order(c.key@, b.key@, a.key@);
        lemma_text_order(c.key@, a.key@, b.key@);
        lemma_text_order(a.key@, c.key@, b.key@);
    }

    fn comes_first(&self, other: &Self) -> (r: bool) {
        if self.self_events != other.self_events {
            self.self_events > other.self_events
        } else if self.total_events != other.total_events {
            self.total_events > other.total_events
        } else {
            comes_before(&self.key, &other.key)
        }
    }
}

/// More of a list has no fewer events.
proof fn lemma_events_grow<T>(samples: Seq<SampleModel<T>>, list: Seq<usize>, n: int)
    requires
        0 <= n <= list.len(),
    ensures
        events_at(samples, list.take(n)) <= events_at(samples, list),
    decreases list.len(),
{
    if n < list.len() {
        lemma_events_grow(samples, list.drop_last(), n);
        assert(list.drop_last().take(n) =~= list.take(n));
    } else {
        assert(list.take(n) =~= list);
    }
}

/// Adds up the events of the samples of a list.
fn sum_events<T>(thread: &Thread<T>, list: &Vec<usize>) -> (r: u64)
    requires
        ascending(list@, thread@.samples.len() as int),
        events_at(thread@.samples, list@) <= u64::MAX,
    ensures
        r == events_at(thread@.samples, list@),
{
    let ghost samples = thread@.samples;
    let mut total: u64 = 0;
    let n = list.len();
    for a in 0..n
        invariant
            n == list@.len(),
            samples == thread@.samples,
            ascending(list@, samples.len() as int),
            events_at(samples, list@) <= u64::MAX,
            total == events_at(samples, list@.take(a as int)),
    {
        let i = list[a];
        proof {
            assert(list@.take(a + 1).drop_last() =~= list@.take(a as int));
            lemma_events_grow(samples, list@, a + 1);
            assert((list@[a as int] as int) < samples.len());
            assert(samples[i as int] == thread.samples@[i as int]@);
        }
        total = total + thread.samples[i].weight;
    }
    assert(list@.take(n as int) =~= list@);
    total
}

/// The events of every function fit their type.
pub open spec fn events_fit<T>(t: ThreadModel<T>) -> bool {
    forall|key: Seq<char>|
        events_at(t.samples, #[trigger] stack_samples(t, key, t.samples.len() as int)) <= u64::MAX
}

/// Where the events of all samples fit, so do those of every function.
pub proof fn lemma_events_fit<T>(t: ThreadModel<T>)
    requires
        weight_sum(t.samples) <= u64::MAX,
        t.samples.len() <= usize::MAX,
    ensures
        events_fit(t),
{
    let n = t.samples.len() as int;
    assert(t.samples.take(n) =~= t.samples);
    assert forall|key: Seq<char>| events_at(
        t.samples,
        #[trigger] stack_samples(t, key, n),
    ) <= u64::MAX by {
        lemma_lists_ascend(t, key, n);
        lemma_events_bounded(t.samples, stack_samples(t, key, n), n);
    }
}

/// Aggregates a thread into one row per function, sorted by descending exclusive
/// events: the hottest leaves first.
pub fn flat_profile<T>(thread: &Thread<T>) -> (r: Vec<FunctionStat>)
    requires
        stacks_within(thread@.samples, thread@.frames.len() as int),
        events_fit(thread@),
    ensures
        is_flat_profile(r@, thread@),
{
    let (usages, index) = collect_usages(thread);
    let ghost t = thread@;
    let ghost n = t.samples.len() as int;
    let ghost all = usages@;
    let count = thread.samples.len();
    let mut rows: Vec<FunctionStat> = Vec::new();
    for usage in it: usages
        invariant
            it.seq() == all,
            t == thread@,
            n == t.samples.len(),
            n == count,
            events_fit(t),
            usages_ok(all, index@, t, n, 0),
            rows@.len() == it.index(),
            forall|i: int|
                0 <= i < rows@.len() ==> (#[trigger] rows@[i]).key@ == all[i].key@ && is_row(
                    rows@[i],
                    t,
                ),
    {
        proof {
            assert(usage == all[it.index() as int]);
            assert(usage_ok(all[it.index() as int], t, n, 0));
            lemma_lists_ascend(t, usage.key@, n);
            lemma_self_within_total(t, usage.key@, n);
            assert(events_at(t.samples, stack_samples(t, usage.key@, n)) <= u64::MAX);
        }
        let self_events = sum_events(thread, &usage.self_in);
        let total_events = sum_events(thread, &usage.total_in);
        rows.push(
            FunctionStat {
                key: usage.key,
                self_events,
                total_events,
                self_in: usage.self_in,
                total_in: usage.total_in,
            },
        );
    }
    let ghost unsorted = rows@;
    let sorted = sort(rows);
    proof {
        lemma_sorted_profile(unsorted, sorted@, t, all, index@);
    }
    sorted
}

/// Sorting the rows of all functions gives the flat profile.
proof fn lemma_sorted_profile<T>(
    rows: Seq<FunctionStat>,
    sorted: Seq<FunctionStat>,
    t: ThreadModel<T>,
    all: Seq<Usage>,
    index: Map<Seq<char>, usize>,
)
    requires
        usages_ok(all, index, t, t.samples.len() as int, 0),
        rows.len() == all.len(),
        forall|i: int|
            0 <= i < rows.len() ==> (#[trigger] rows[i]).key@ == all[i].key@ && is_row(rows[i], t),
        in_order(sorted),
        sorted.to_multiset() == rows.to_multiset(),
    ensures
        is_flat_profile(sorted, t),
{
    let n = t.samples.len() as int;
    lemma_same_values(rows, sorted);
    assert forall|i: int, j: int| 0 <= i < j < rows.len() implies (#[trigger] rows[i]).key@ != (
    #[trigger] rows[j]).key@ by {
        assert(index[all[i].key@] == i);
        assert(index[all[j].key@] == j);
    }
    assert(rows.no_duplicates());
    rows.lemma_multiset_has_no_duplicates();
    sorted.lemma_multiset_has_no_duplicates_conv();
    assert forall|i: int| 0 <= i < sorted.len() implies is_row(#[trigger] sorted[i], t) by {
        assert(sorted.contains(sorted[i]));
        assert(rows.contains(sorted[i]));
        let k = choose|k: int| 0 <= k < rows.len() && rows[k] == sorted[i];
        assert(is_row(rows[k], t));
    }
    assert forall|i: int, j: int| 0 <= i < j < sorted.len() implies hotter(
        #[trigger] sorted[i],
        #[trigger] sorted[j],
    ) by {
        assert(sorted.contains(sorted[i]) && sorted.contains(sorted[j]));
        let a = choose|a: int| 0 <= a < rows.len() && rows[a] == sorted[i];
        let b = choose|b: int| 0 <= b < rows.len() && rows[b] == sorted[j];
        assert(a != b);
        if a < b {
            assert(rows[a].key@ != rows[b].key@);
        } else {
            assert(rows[b].key@ != rows[a].key@);
        }
        assert(!sorted[j].precedes(&sorted[i]));
        lemma_text_order(sorted[i].key@, sorted[j].key@, sorted[i].key@);
    }
    assert forall|key: Seq<char>| #[trigger] has_row(sorted, key) <==> is_sampled(t, n, key) by {
        assert(index.dom().contains(key) <==> is_sampled(t, n, key) || is_among(t, n, 0, key));
        if has_row(sorted, key) {
            let i = choose|i: int| 0 <= i < sorted.len() && (#[trigger] sorted[i]).key@ == key;
            assert(sorted.contains(sorted[i]));
            let k = choose|k: int| 0 <= k < rows.len() && rows[k] == sorted[i];
            assert(index.dom().contains(all[k].key@));
        }
        if index.dom().contains(key) {
            let k = index[key] as int;
            assert(all[k].key@ == key);
            assert(rows.contains(rows[k]));
            let i = choose|i: int| 0 <= i < sorted.len() && sorted[i] == rows[k];
            assert(sorted[i].key@ == key);
        }
    }
}

// ---------------------------------------------------------------------------
// Laws of the flat profile
// ---------------------------------------------------------------------------

proof fn lemma_self_within_total<T>(t: ThreadModel<T>, key: Seq<char>, n: int)
    requires
        0 <= n <= t.samples.len() <= usize::MAX,
    ensures
        events_at(t.samples, leaf_samples(t, key, n)) <= events_at(
            t.samples,
            stack_samples(t, key, n),
        ),
    decreases n,
{
    if n > 0 {
        lemma_self_within_total(t, key, n - 1);
        let a = leaf_samples(t, key, n - 1);
        let b = stack_samples(t, key, n - 1);
        assert(a.push((n - 1) as usize).drop_last() =~= a);
        assert(b.push((n - 1) as usize).drop_last() =~= b);
        if is_leaf(t, n - 1, key) {
            assert(t.key(t.samples[n - 1].stack[0]) == key);
            assert(is_on_stack(t, n - 1, key));
        }
    }
}

/// A function's exclusive events are among its inclusive events, and those among the
/// events of the thread. Each sample counts once.
pub proof fn law_flat_profile_bounds<T>(rows: Seq<FunctionStat>, t: ThreadModel<T>, i: int)
    requires
        is_flat_profile(rows, t),
        t.samples.len() <= usize::MAX,
        0 <= i < rows.len(),
    ensures
        rows[i].self_events <= rows[i].total_events <= weight_sum(t.samples),
        ascending(rows[i].self_in@, t.samples.len() as int),
        ascending(rows[i].total_in@, t.samples.len() as int),
{
    let n = t.samples.len() as int;
    assert(is_row(rows[i], t));
    lemma_self_within_total(t, rows[i].key@, n);
    lemma_lists_ascend(t, rows[i].key@, n);
    lemma_events_bounded(t.samples, rows[i].total_in@, n);
    assert(t.samples.take(n) =~= t.samples);
}

/// The exclusive events of all rows.
pub open spec fn row_self_sum(rows: Seq<FunctionStat>) -> nat
    decreases rows.len(),
{
    if rows.len() == 0 {
        0
    } else {
        row_self_sum(rows.drop_last()) + rows.last().self_events as nat
    }
}

/// The events of the first `n` samples whose leaf is one of `keys`.
spec fn leaf_sum<T>(t: ThreadModel<T>, keys: Seq<Seq<char>>, n: int) -> nat
    decreases keys.len(),
{
    if keys.len() == 0 {
        0
    } else {
        leaf_sum(t, keys.drop_last(), n) + events_at(t.samples, leaf_samples(t, keys.last(), n))
    }
}

proof fn lemma_leaf_sum_step<T>(t: ThreadModel<T>, keys: Seq<Seq<char>>, n: int)
    requires
        0 < n <= t.samples.len() <= usize::MAX,
        keys.no_duplicates(),
    ensures
        leaf_sum(t, keys, n) == leaf_sum(t, keys, n - 1) + (if t.samples[n - 1].stack.len() > 0
            && keys.contains(t.key(t.samples[n - 1].stack[0])) {
            t.samples[n - 1].weight as nat
        } else {
            0
        }),
    decreases keys.len(),
{
    if keys.len() > 0 {
        let rest = keys.drop_last();
        let last = keys.last();
        let leaf = t.key(t.samples[n - 1].stack[0]);
        assert(rest.no_duplicates());
        lemma_leaf_sum_step(t, rest, n);
        let list = leaf_samples(t, last, n - 1);
        assert(list.push((n - 1) as usize).drop_last() =~= list);
        assert(keys[keys.len() - 1] == last);
        if rest.contains(leaf) {
            let a = choose|a: int| 0 <= a < rest.len() && rest[a] == leaf;
            assert(keys[a] == leaf);
            assert(leaf != last);
        }
        if keys.contains(leaf) && leaf != last {
            let a = choose|a: int| 0 <= a < keys.len() && keys[a] == leaf;
            assert(rest[a] == leaf);
        }
    }
}

proof fn lemma_leaf_sum_empty<T>(t: ThreadModel<T>, keys: Seq<Seq<char>>)
    ensures
        leaf_sum(t, keys, 0) == 0,
    decreases keys.len(),
{
    if keys.len() > 0 {
        lemma_leaf_sum_empty(t, keys.drop_last());
    }
}

proof fn lemma_leaf_sum<T>(t: ThreadModel<T>, keys: Seq<Seq<char>>, n: int)
    requires
        0 <= n <= t.samples.len() <= usize::MAX,
        keys.no_duplicates(),
        forall|key: Seq<char>| #[trigger]
            is_sampled(t, t.samples.len() as int, key) ==> keys.contains(key),
    ensures
        leaf_sum(t, keys, n) == deep_sum(t.samples.take(n), 1),
    decreases n,
{
    if n == 0 {
        lemma_leaf_sum_empty(t, keys);
    } else {
        lemma_leaf_sum(t, keys, n - 1);
        lemma_leaf_sum_step(t, keys, n);
        assert(t.samples.take(n).drop_last() =~= t.samples.take(n - 1));
        if t.samples[n - 1].stack.len() > 0 {
            let leaf = t.key(t.samples[n - 1].stack[0]);
            assert(is_on_stack(t, n - 1, leaf));
            assert(is_sampled(t, t.samples.len() as int, leaf));
        }
    }
}

/// The functions of the rows.
pub open spec fn row_keys(rows: Seq<FunctionStat>) -> Seq<Seq<char>> {
    rows.map_values(|r: FunctionStat| r.key@)
}

proof fn lemma_row_self_sum<T>(rows: Seq<FunctionStat>, t: ThreadModel<T>)
    requires
        forall|i: int| 0 <= i < rows.len() ==> is_row(#[trigger] rows[i], t),
    ensures
        row_self_sum(rows) == leaf_sum(t, row_keys(rows), t.samples.len() as int),
    decreases rows.len(),
{
    if rows.len() > 0 {
        let rest = rows.drop_last();
        assert forall|i: int| 0 <= i < rest.len() implies is_row(#[trigger] rest[i], t) by {
            assert(rest[i] == rows[i]);
        }
        lemma_row_self_sum(rest, t);
        assert(row_keys(rows).drop_last() =~= row_keys(rest));
        assert(is_row(rows[rows.len() - 1], t));
    }
}

/// Two rows are of different functions.
proof fn lemma_rows_distinct<T>(rows: Seq<FunctionStat>, t: ThreadModel<T>)
    requires
        is_flat_profile(rows, t),
    ensures
        row_keys(rows).no_duplicates(),
{
    let keys = row_keys(rows);
    assert forall|i: int, j: int| 0 <= i < j < keys.len() implies keys[i] != keys[j] by {
        if keys[i] == keys[j] {
            assert(is_row(rows[i], t) && is_row(rows[j], t));
            assert(hotter(rows[i], rows[j]));
            lemma_text_order(rows[i].key@, rows[i].key@, rows[i].key@);
        }
    }
}

/// The exclusive events of all functions make up the events of the samples that have
/// a stack: every such event has exactly one leaf.
pub proof fn law_flat_profile_self_covers<T>(rows: Seq<FunctionStat>, t: ThreadModel<T>)
    requires
        is_flat_profile(rows, t),
        t.samples.len() <= usize::MAX,
    ensures
        row_self_sum(rows) == deep_sum(t.samples, 1),
{
    let n = t.samples.len() as int;
    let keys = row_keys(rows);
    lemma_rows_distinct(rows, t);
    assert forall|key: Seq<char>| #[trigger] is_sampled(t, n, key) implies keys.contains(key) by {
        assert(has_row(rows, key));
        let i = choose|i: int| 0 <= i < rows.len() && (#[trigger] rows[i]).key@ == key;
        assert(keys[i] == key);
    }
    lemma_leaf_sum(t, keys, n);
    lemma_row_self_sum(rows, t);
    assert(t.samples.take(n) =~= t.samples);
}

/// The flat profile and the statistics per function agree: there is exactly one row for
/// each key, and it has the same samples, so the same exclusive and inclusive time.
pub proof fn law_flat_profile_matches_symbol_stats<T>(
    rows: Seq<FunctionStat>,
    stats: Map<Seq<char>, Stats>,
    t: ThreadModel<T>,
)
    requires
        is_flat_profile(rows, t),
        is_symbol_stats(stats, t),
    ensures
        forall|key: Seq<char>| #[trigger] has_row(rows, key) <==> stats.dom().contains(key),
        forall|i: int, j: int|
            0 <= i < j < rows.len() ==> (#[trigger] rows[i]).key@ != (#[trigger] rows[j]).key@,
        forall|i: int|
            0 <= i < rows.len() ==> {
                &&& (#[trigger] rows[i]).self_in@ == stats[rows[i].key@].self_in@
                &&& rows[i].total_in@ == stats[rows[i].key@].total_in@
            },
{
    assert forall|key: Seq<char>| #[trigger]
        has_row(rows, key) <==> stats.dom().contains(key) by {}
    assert forall|i: int, j: int| 0 <= i < j < rows.len() implies (#[trigger] rows[i]).key@ != (
    #[trigger] rows[j]).key@ by {
        assert(hotter(rows[i], rows[j]));
        assert(is_row(rows[i], t) && is_row(rows[j], t));
        lemma_text_order(rows[i].key@, rows[j].key@, rows[i].key@);
    }
    assert forall|i: int| 0 <= i < rows.len() implies {
        &&& (#[trigger] rows[i]).self_in@ == stats[rows[i].key@].self_in@
        &&& rows[i].total_in@ == stats[rows[i].key@].total_in@
    } by {
        assert(has_row(rows, rows[i].key@));
        assert(is_row(rows[i], t));
    }
}

/// A thread determines its flat profile, row by row.
pub proof fn law_flat_profile_is_determined<T>(
    a: Seq<FunctionStat>,
    b: Seq<FunctionStat>,
    t: ThreadModel<T>,
    i: int,
)
    requires
        is_flat_profile(a, t),
        is_flat_profile(b, t),
        0 <= i < a.len(),
    ensures
        a.len() == b.len(),
        a[i].key@ == b[i].key@,
        a[i].self_events == b[i].self_events,
        a[i].total_events == b[i].total_events,
        a[i].self_in@ == b[i].self_in@,
        a[i].total_in@ == b[i].total_in@,
{
    lemma_same_row(a, b, t, i);
    lemma_same_row(a, b, t, a.len() - 1);
    if b.len() > 0 {
        lemma_same_row(b, a, t, b.len() - 1);
    }
    assert(is_row(a[i], t) && is_row(b[i], t));
}

proof fn lemma_same_row<T>(
    a: Seq<FunctionStat>,
    b: Seq<FunctionStat>,
    t: ThreadModel<T>,
    i: int,
)
    requires
        is_flat_profile(a, t),
        is_flat_profile(b, t),
        0 <= i < a.len(),
    ensures
        i < b.len(),
        a[i].key@ == b[i].key@,
    decreases i,
{
    assert forall|j: int| 0 <= j < i implies j < b.len() && (#[trigger] a[j]).key@ == b[j].key@ by {
        lemma_same_row(a, b, t, j);
    }
    lemma_rows_distinct(a, t);
    lemma_rows_distinct(b, t);
    assert(has_row(a, a[i].key@));
    assert(has_row(b, a[i].key@));
    let k = choose|k: int| 0 <= k < b.len() && (#[trigger] b[k]).key@ == a[i].key@;
    if k < i {
        assert(a[k].key@ == b[k].key@);
        assert(row_keys(a)[k] != row_keys(a)[i]);
    }
    if k > i {
        assert(has_row(b, b[i].key@));
        assert(has_row(a, b[i].key@));
        let m = choose|m: int| 0 <= m < a.len() && (#[trigger] a[m]).key@ == b[i].key@;
        if m < i {
            assert(a[m].key@ == b[m].key@);
            assert(row_keys(b)[m] != row_keys(b)[i]);
        }
        assert(is_row(a[i], t) && is_row(b[k], t) && is_row(a[m], t) && is_row(b[i], t));
        assert(hotter(b[i], b[k]));
        if m > i {
            assert(hotter(a[i], a[m]));
            lemma_text_order(a[i].key@, b[i].key@, a[i].key@);
        }
    }
}

/// The exclusive events of the nodes of `key` in a list of the call tree and below.
pub open spec fn tree_self<T>(nodes: Seq<CallNode>, t: ThreadModel<T>, key: Seq<char>) -> nat
    decreases nodes,
{
    if nodes.len() == 0 {
        0
    } else {
        let last = nodes[nodes.len() - 1];
        tree_self(nodes.drop_last(), t, key) + (if t.key(last.frame) == key {
            last.self_samples as nat
        } else {
            0
        }) + tree_self(last.children@, t, key)
    }
}

/// The sample, with its weight only where `key` is its leaf.
spec fn leaf_only<T>(t: ThreadModel<T>, s: SampleModel<T>, key: Seq<char>) -> SampleModel<T> {
    SampleModel {
        weight: if s.stack.len() > 0 && t.key(s.stack[0]) == key {
            s.weight
        } else {
            0
        },
        ..s
    }
}

/// The samples, with their weights only where `key` is the leaf.
spec fn leaves_only<T>(
    t: ThreadModel<T>,
    samples: Seq<SampleModel<T>>,
    key: Seq<char>,
) -> Seq<SampleModel<T>> {
    samples.map_values(|s: SampleModel<T>| leaf_only(t, s, key))
}

proof fn lemma_leaves_ending<T>(
    t: ThreadModel<T>,
    samples: Seq<SampleModel<T>>,
    path: Seq<FrameId>,
    key: Seq<char>,
)
    requires
        path.len() > 0,
    ensures
        ending(leaves_only(t, samples, key), path) == (if t.key(path.last()) == key {
            ending(samples, path)
        } else {
            0
        }),
    decreases samples.len(),
{
    if samples.len() > 0 {
        let rest = samples.drop_last();
        let s = samples.last();
        lemma_leaves_ending(t, rest, path, key);
        assert(leaves_only(t, samples, key).drop_last() =~= leaves_only(t, rest, key));
        assert(call_path(leaf_only(t, s, key)) =~= call_path(s));
        if call_path(s) == path {
            assert(call_path(s).last() == s.stack[0]);
        }
    }
}

proof fn lemma_leaves_occur<T>(
    t: ThreadModel<T>,
    samples: Seq<SampleModel<T>>,
    path: Seq<FrameId>,
    key: Seq<char>,
)
    ensures
        occurs(leaves_only(t, samples, key), path) ==> occurs(samples, path),
{
    let marked = leaves_only(t, samples, key);
    if occurs(marked, path) {
        let i = choose|i: int| 0 <= i < marked.len() && passes(#[trigger] marked[i], path);
        assert(call_path(marked[i]) =~= call_path(samples[i]));
        assert(passes(samples[i], path));
    }
}

/// The nodes of a list carry, of the events of a leaf, those that go on from it.
proof fn lemma_tree_self<T>(
    nodes: Seq<CallNode>,
    t: ThreadModel<T>,
    samples: Seq<SampleModel<T>>,
    path: Seq<FrameId>,
    key: Seq<char>,
)
    requires
        forall|i: int| 0 <= i < nodes.len() ==> is_node(#[trigger] nodes[i], samples, path),
    ensures
        tree_self(nodes, t, key) == fan_out(
            leaves_only(t, samples, key),
            path,
            frames_of_nodes(nodes),
        ),
    decreases nodes,
{
    if nodes.len() > 0 {
        let marked = leaves_only(t, samples, key);
        let last = nodes[nodes.len() - 1];
        let rest = nodes.drop_last();
        let sub = path.push(last.frame);
        assert forall|i: int| 0 <= i < rest.len() implies is_node(
            #[trigger] rest[i],
            samples,
            path,
        ) by {
            assert(rest[i] == nodes[i]);
        }
        lemma_tree_self(rest, t, samples, path, key);
        assert(frames_of_nodes(nodes).drop_last() =~= frames_of_nodes(rest));
        assert(is_node(last, samples, path));
        lemma_tree_self(last.children@, t, samples, sub, key);
        lemma_leaves_ending(t, samples, sub, key);
        assert forall|f: FrameId| occurs(marked, #[trigger] sub.push(f)) implies frames_of_nodes(
            last.children@,
        ).contains(f) by {
            lemma_leaves_occur(t, samples, sub.push(f), key);
            assert(has_frame(last.children@, f));
            let i = choose|i: int|
                0 <= i < last.children@.len() && (#[trigger] last.children@[i]).frame == f;
            assert(frames_of_nodes(last.children@)[i] == f);
        }
        lemma_frames_distinct(last.children@, samples, sub);
        lemma_fan_out(marked, sub, frames_of_nodes(last.children@));
    }
}

proof fn lemma_frames_distinct<T>(
    nodes: Seq<CallNode>,
    samples: Seq<SampleModel<T>>,
    path: Seq<FrameId>,
)
    requires
        is_level(nodes, samples, path),
    ensures
        frames_of_nodes(nodes).no_duplicates(),
{
    let frames = frames_of_nodes(nodes);
    assert forall|i: int, j: int| 0 <= i < frames.len() && 0 <= j < frames.len() && i
        != j implies frames[i] != frames[j] by {
        if i < j {
            assert(nodes[i].frame != nodes[j].frame);
        } else {
            assert(nodes[j].frame != nodes[i].frame);
        }
    }
}

proof fn lemma_leaves_weight<T>(t: ThreadModel<T>, key: Seq<char>, n: int)
    requires
        0 <= n <= t.samples.len() <= usize::MAX,
    ensures
        weight_sum(leaves_only(t, t.samples.take(n), key)) == events_at(
            t.samples,
            leaf_samples(t, key, n),
        ),
        ending(leaves_only(t, t.samples.take(n), key), Seq::empty()) == 0,
    decreases n,
{
    if n > 0 {
        lemma_leaves_weight(t, key, n - 1);
        let part = t.samples.take(n);
        let marked = leaves_only(t, part, key);
        assert(part.drop_last() =~= t.samples.take(n - 1));
        assert(marked.drop_last() =~= leaves_only(t, part.drop_last(), key));
        let list = leaf_samples(t, key, n - 1);
        assert(list.push((n - 1) as usize).drop_last() =~= list);
        if marked.last().stack.len() > 0 {
            assert(call_path(marked.last()).len() > 0);
        }
    }
}

/// The call tree and the flat profile agree: the exclusive events of a function are
/// those of its nodes in the call tree.
pub proof fn law_flat_profile_matches_call_tree<T>(
    rows: Seq<FunctionStat>,
    tree: CallTree,
    t: ThreadModel<T>,
    i: int,
)
    requires
        is_flat_profile(rows, t),
        is_call_tree(tree, t.samples),
        t.samples.len() <= usize::MAX,
        0 <= i < rows.len(),
    ensures
        rows[i].self_events == tree_self(tree.roots@, t, rows[i].key@),
{
    let key = rows[i].key@;
    let root = Seq::<FrameId>::empty();
    let marked = leaves_only(t, t.samples, key);
    assert(is_row(rows[i], t));
    lemma_tree_self(tree.roots@, t, t.samples, root, key);
    assert forall|f: FrameId| occurs(marked, #[trigger] root.push(f)) implies frames_of_nodes(
        tree.roots@,
    ).contains(f) by {
        lemma_leaves_occur(t, t.samples, root.push(f), key);
        assert(has_frame(tree.roots@, f));
        let k = choose|k: int| 0 <= k < tree.roots@.len() && (#[trigger] tree.roots@[k]).frame == f;
        assert(frames_of_nodes(tree.roots@)[k] == f);
    }
    lemma_frames_distinct(tree.roots@, t.samples, root);
    lemma_fan_out(marked, root, frames_of_nodes(tree.roots@));
    lemma_through_root(marked);
    lemma_leaves_weight(t, key, t.samples.len() as int);
    assert(t.samples.take(t.samples.len() as int) =~= t.samples);
}

// ---------------------------------------------------------------------------
// The rows that `flat_profile` gives
// ---------------------------------------------------------------------------

/// The name under which a frame of the thread is counted: its symbol, or its address
/// where it has none.
pub open spec fn counted_name<T>(thread: Thread<T>, id: FrameId) -> Seq<char> {
    let frame = thread@.frames[id as int];
    if frame.symbol is Some && frame.symbol->0 != Seq::<char>::empty() {
        frame.symbol->0
    } else {
        frame.ip
    }
}

/// The sample was taken while the function was the innermost one.
pub open spec fn taken_in<T>(thread: Thread<T>, sample: Sample<T>, key: Seq<char>) -> bool {
    sample.stack@.len() > 0 && counted_name(thread, sample.stack@[0]) == key
}

/// The sample was taken while the function was running or waiting for one it called.
pub open spec fn taken_under<T>(thread: Thread<T>, sample: Sample<T>, key: Seq<char>) -> bool {
    exists|j: int|
        0 <= j < sample.stack@.len() && counted_name(thread, #[trigger] sample.stack@[j]) == key
}

/// The events of the samples taken in the function.
pub open spec fn events_in<T>(thread: Thread<T>, samples: Seq<Sample<T>>, key: Seq<char>) -> int {
    samples.fold_left(
        0int,
        |sum: int, s: Sample<T>|
            if taken_in(thread, s, key) {
                sum + s.weight
            } else {
                sum
            },
    )
}

/// The events of the samples taken under the function, each sample once.
pub open spec fn events_under<T>(
    thread: Thread<T>,
    samples: Seq<Sample<T>>,
    key: Seq<char>,
) -> int {
    samples.fold_left(
        0int,
        |sum: int, s: Sample<T>|
            if taken_under(thread, s, key) {
                sum + s.weight
            } else {
                sum
            },
    )
}

proof fn lemma_taken<T>(thread: Thread<T>, k: int, key: Seq<char>)
    requires
        0 <= k < thread.samples@.len(),
    ensures
        taken_in(thread, thread.samples@[k], key) <==> is_leaf(thread@, k, key),
        taken_under(thread, thread.samples@[k], key) <==> is_on_stack(thread@, k, key),
{
    let s = thread.samples@[k];
    let t = thread@;
    assert(t.samples[k] == s@);
    assert forall|id: FrameId| counted_name(thread, id) == #[trigger] t.key(id) by {
        let frame = t.frames[id as int];
        if frame.symbol is Some && frame.symbol->0.len() == 0 {
            assert(frame.symbol->0 =~= Seq::<char>::empty());
        }
    }
    if taken_under(thread, s, key) {
        let j = choose|j: int|
            0 <= j < s.stack@.len() && counted_name(thread, #[trigger] s.stack@[j]) == key;
        assert(t.key(t.samples[k].stack[j]) == key);
    }
    if is_on_stack(t, k, key) {
        let j = choose|j: int|
            0 <= j < t.samples[k].stack.len() && t.key(#[trigger] t.samples[k].stack[j]) == key;
        assert(counted_name(thread, s.stack@[j]) == key);
    }
}

proof fn lemma_taken_lists<T>(thread: Thread<T>, key: Seq<char>, n: int)
    requires
        0 <= n <= thread.samples@.len(),
        thread.samples@.len() <= usize::MAX,
    ensures
        events_at(thread@.samples, leaf_samples(thread@, key, n)) == events_in(
            thread,
            thread.samples@.take(n),
            key,
        ),
        events_at(thread@.samples, stack_samples(thread@, key, n)) == events_under(
            thread,
            thread.samples@.take(n),
            key,
        ),
        forall|k: usize| #[trigger]
            leaf_samples(thread@, key, n).contains(k) <==> (k as int) < n && taken_in(
                thread,
                thread.samples@[k as int],
                key,
            ),
        forall|k: usize| #[trigger]
            stack_samples(thread@, key, n).contains(k) <==> (k as int) < n && taken_under(
                thread,
                thread.samples@[k as int],
                key,
            ),
    decreases n,
{
    if n > 0 {
        let s = thread.samples@;
        let t = thread@;
        lemma_taken_lists(thread, key, n - 1);
        lemma_taken(thread, n - 1, key);
        assert(s.take(n).drop_last() =~= s.take(n - 1));
        assert(t.samples[n - 1] == s[n - 1]@);
        let leaves = leaf_samples(t, key, n - 1);
        let stacks = stack_samples(t, key, n - 1);
        let last = (n - 1) as usize;
        assert(leaves.push(last).drop_last() =~= leaves);
        assert(stacks.push(last).drop_last() =~= stacks);
        lemma_contains_more(leaves, last);
        lemma_contains_more(stacks, last);
    }
}

proof fn lemma_contains_more(list: Seq<usize>, last: usize)
    ensures
        forall|k: usize| #[trigger] list.push(last).contains(k) <==> list.contains(k) || k == last,
{
    let more = list.push(last);
    assert(more[list.len() as int] == last);
    assert forall|k: usize| #[trigger] more.contains(k) <==> list.contains(k) || k == last by {
        if list.contains(k) {
            let a = choose|a: int| 0 <= a < list.len() && list[a] == k;
            assert(more[a] == k);
        }
        if more.contains(k) {
            let a = choose|a: int| 0 <= a < more.len() && more[a] == k;
            if a < list.len() {
                assert(list[a] == k);
            }
        }
    }
}

/// A row counts the events of exactly the samples taken in its function as exclusive, and
/// those of exactly the samples taken under it, each once, as inclusive; and it lists
/// those samples, in order.
pub proof fn law_flat_profile_counts<T>(thread: Thread<T>, rows: Seq<FunctionStat>, i: int)
    requires
        is_flat_profile(rows, thread@),
        0 <= i < rows.len(),
    ensures
        rows[i].self_events == events_in(thread, thread.samples@, rows[i].key@),
        rows[i].total_events == events_under(thread, thread.samples@, rows[i].key@),
        forall|k: usize| #[trigger]
            rows[i].self_in@.contains(k) <==> (k as int) < thread.samples@.len() && taken_in(
                thread,
                thread.samples@[k as int],
                rows[i].key@,
            ),
        forall|k: usize| #[trigger]
            rows[i].total_in@.contains(k) <==> (k as int) < thread.samples@.len() && taken_under(
                thread,
                thread.samples@[k as int],
                rows[i].key@,
            ),
        forall|a: int, b: int|
            0 <= a < b < rows[i].self_in@.len() ==> #[trigger] rows[i].self_in@[a]
                < #[trigger] rows[i].self_in@[b],
        forall|a: int, b: int|
            0 <= a < b < rows[i].total_in@.len() ==> #[trigger] rows[i].total_in@[a]
                < #[trigger] rows[i].total_in@[b],
{
    let n = thread.samples@.len() as int;
    assert(thread.samples.len() <= usize::MAX);
    assert(is_row(rows[i], thread@));
    assert(thread.samples@.take(n) =~= thread.samples@);
    assert(thread@.samples.len() == n);
    lemma_taken_lists(thread, rows[i].key@, n);
    lemma_lists_ascend(thread@, rows[i].key@, n);
}

/// The statistics of a function list exactly the samples taken in it and those taken
/// under it, in order.
pub proof fn law_symbol_stats_lists<T>(
    thread: Thread<T>,
    stats: Map<Seq<char>, Stats>,
    key: Seq<char>,
)
    requires
        is_symbol_stats(stats, thread@),
    ensures
        stats.dom().contains(key) <==> exists|k: int|
            0 <= k < thread.samples@.len() && taken_under(
                thread,
                #[trigger] thread.samples@[k],
                key,
            ),
        stats.dom().contains(key) ==> {
            &&& forall|k: usize| #[trigger]
                stats[key].self_in@.contains(k) <==> (k as int) < thread.samples@.len()
                    && taken_in(thread, thread.samples@[k as int], key)
            &&& forall|k: usize| #[trigger]
                stats[key].total_in@.contains(k) <==> (k as int) < thread.samples@.len()
                    && taken_under(thread, thread.samples@[k as int], key)
            &&& forall|a: int, b: int|
                0 <= a < b < stats[key].self_in@.len() ==> #[trigger] stats[key].self_in@[a]
                    < #[trigger] stats[key].self_in@[b]
            &&& forall|a: int, b: int|
                0 <= a < b < stats[key].total_in@.len() ==> #[trigger] stats[key].total_in@[a]
                    < #[trigger] stats[key].total_in@[b]
        },
{
    let n = thread.samples@.len() as int;
    assert(thread.samples.len() <= usize::MAX);
    assert(thread@.samples.len() == n);
    lemma_taken_lists(thread, key, n);
    lemma_lists_ascend(thread@, key, n);
    lemma_sampled(thread, key);
}

proof fn lemma_sampled<T>(thread: Thread<T>, key: Seq<char>)
    ensures
        is_sampled(thread@, thread.samples@.len() as int, key) <==> exists|k: int|
            0 <= k < thread.samples@.len() && taken_under(
                thread,
                #[trigger] thread.samples@[k],
                key,
            ),
{
    let n = thread.samples@.len() as int;
    if is_sampled(thread@, n, key) {
        let k = choose|k: int| 0 <= k < n && #[trigger] is_on_stack(thread@, k, key);
        lemma_taken(thread, k, key);
        assert(taken_under(thread, thread.samples@[k], key));
    }
    if exists|k: int| 0 <= k < n && taken_under(thread, #[trigger] thread.samples@[k], key) {
        let k = choose|k: int| 0 <= k < n && taken_under(thread, #[trigger] thread.samples@[k], key);
        lemma_taken(thread, k, key);
        assert(is_on_stack(thread@, k, key));
    }
}

/// There is exactly one row for each function that some sample was taken under.
pub proof fn law_flat_profile_lists_each_function_once<T>(
    thread: Thread<T>,
    rows: Seq<FunctionStat>,
    key: Seq<char>,
)
    requires
        is_flat_profile(rows, thread@),
    ensures
        (exists|i: int| 0 <= i < rows.len() && (#[trigger] rows[i]).key@ == key) <==> exists|k: int|
            0 <= k < thread.samples@.len() && taken_under(
                thread,
                #[trigger] thread.samples@[k],
                key,
            ),
        forall|i: int, j: int|
            0 <= i < j < rows.len() ==> (#[trigger] rows[i]).key@ != (#[trigger] rows[j]).key@,
{
    let n = thread.samples@.len() as int;
    assert(thread@.samples.len() == n);
    lemma_sampled(thread, key);
    assert(has_row(rows, key) <==> is_sampled(thread@, n, key));
    lemma_rows_distinct(rows, thread@);
    let keys = row_keys(rows);
    assert forall|i: int, j: int| 0 <= i < j < rows.len() implies (#[trigger] rows[i]).key@ != (
    #[trigger] rows[j]).key@ by {
        assert(keys[i] != keys[j]);
    }
}

/// The rows come by descending exclusive events, those with as many by descending
/// inclusive events, and those by name.
pub proof fn law_flat_profile_lists_the_hottest_first<T>(
    rows: Seq<FunctionStat>,
    t: ThreadModel<T>,
    i: int,
    j: int,
)
    requires
        is_flat_profile(rows, t),
        0 <= i < j < rows.len(),
    ensures
        rows[i].self_events >= rows[j].self_events,
        rows[i].self_events == rows[j].self_events ==> rows[i].total_events
            >= rows[j].total_events,
        rows[i].self_events == rows[j].self_events && rows[i].total_events == rows[j].total_events
            ==> exists|p: int|
            {
                &&& 0 <= p < rows[j].key@.len()
                &&& p <= rows[i].key@.len()
                &&& #[trigger] rows[i].key@.take(p) == rows[j].key@.take(p)
                &&& p < rows[i].key@.len() ==> (rows[i].key@[p] as int) < (rows[j].key@[p] as int)
            },
{
    assert(hotter(rows[i], rows[j]));
    if rows[i].self_events == rows[j].self_events && rows[i].total_events == rows[j].total_events {
        let p = law_text_before(rows[i].key@, rows[j].key@);
        assert(rows[i].key@.take(p) == rows[j].key@.take(p));
    }
}

/// A sample lasts until the next one, and the last as long as the one before it; a
/// thread's only sample takes no time.
pub proof fn law_gap(i: usize, n: usize)
    requires
        i < n,
    ensures
        i + 1 < n ==> gap_of(i as int, n as int) == Some((i + 1, i as int)),
        i + 1 == n && n > 1 ==> gap_of(i as int, n as int) == gap_of(i - 1, n as int),
        n == 1 ==> gap_of(i as int, n as int) is None,
{
}

} // verus!
