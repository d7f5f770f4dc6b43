//! The common profile model shared by every parser.
//!
//! A [`Profile`] is a list of threads, each with its samples in order. A sample
//! holds a stack of interned frames, leaf first, a weight in events and the time
//! at which it was taken. Times are of a type `T` that this library carries and
//! never computes with.

use crate::sort::{sort, Ranked};
use crate::text::push_decimal;
use std::collections::HashMap;
use std::sync::Arc;
use vstd::hash_map::StringHashMap;
use vstd::prelude::*;

verus! {

/// Makes another pointer to a shared value: `Arc::clone` gives a pointer to the
/// same value.
#[verifier::external_body]
pub(crate) fn share<A>(shared: &Arc<A>) -> (r: Arc<A>)
    ensures
        r == *shared,
{
    Arc::clone(shared)
}

/// The characters of an optional string.
pub open spec fn opt_text(s: Option<String>) -> Option<Seq<char>> {
    match s {
        Some(s) => Some(s@),
        None => None,
    }
}

// ---------------------------------------------------------------------------
// Frames
// ---------------------------------------------------------------------------

/// A single stack frame.
#[derive(Debug, Clone, PartialEq, Eq, Hash)]
pub struct Frame {
    /// Identifier of the frame: an instruction pointer when available, otherwise
    /// a symbolic identity.
    pub ip: String,
    /// Human-readable symbol name, when known.
    pub symbol: Option<String>,
    /// Originating shared object or source file, when known.
    pub dso: Option<String>,
}

/// What a [`Frame`] holds.
#[verifier::ext_equal]
pub struct FrameModel {
    pub ip: Seq<char>,
    pub symbol: Option<Seq<char>>,
    pub dso: Option<Seq<char>>,
}

impl FrameModel {
    /// The identity of a frame: its symbol when it has a non-empty one, otherwise
    /// its instruction pointer.
    pub open spec fn key(self) -> Seq<char> {
        match self.symbol {
            Some(symbol) => if symbol.len() > 0 {
                symbol
            } else {
                self.ip
            },
            None => self.ip,
        }
    }
}

impl View for Frame {
    type V = FrameModel;

    open spec fn view(&self) -> FrameModel {
        FrameModel { ip: self.ip@, symbol: opt_text(self.symbol), dso: opt_text(self.dso) }
    }
}

impl Frame {
    /// The frame's identity, used to label, colour and group what stands for the
    /// same function.
    pub fn key(&self) -> (r: &str)
        ensures
            r@ == self@.key(),
    {
        match &self.symbol {
            Some(symbol) => {
                if symbol.as_str().is_empty() {
                    self.ip.as_str()
                } else {
                    symbol.as_str()
                }
            },
            None => self.ip.as_str(),
        }
    }
}

/// An interned reference to a [`Frame`] of a [`FrameTable`].
pub type FrameId = u32;

/// The id of the frame at position `i` of a table: the position, as far as the
/// width of an id goes.
pub open spec fn id_at(i: int) -> FrameId {
    (i % 0x1_0000_0000) as u32
}

/// Position of the first frame with the identity `key`, or the number of frames.
pub open spec fn find_key(frames: Seq<FrameModel>, key: Seq<char>) -> int
    decreases frames.len(),
{
    if frames.len() == 0 || frames[0].key() == key {
        0
    } else {
        1 + find_key(frames.skip(1), key)
    }
}

/// The table after a frame was interned: it gains the frame where its identity is
/// new.
pub open spec fn interned(frames: Seq<FrameModel>, frame: FrameModel) -> Seq<FrameModel> {
    if find_key(frames, frame.key()) < frames.len() {
        frames
    } else {
        frames.push(frame)
    }
}

/// No two frames share an identity.
pub open spec fn distinct_keys(frames: Seq<FrameModel>) -> bool {
    forall|i: int, j: int|
        0 <= i < j < frames.len() ==> (#[trigger] frames[i]).key() != (#[trigger] frames[j]).key()
}

pub proof fn lemma_find_key(frames: Seq<FrameModel>, key: Seq<char>)
    ensures
        0 <= find_key(frames, key) <= frames.len(),
        forall|i: int| 0 <= i < find_key(frames, key) ==> (#[trigger] frames[i]).key() != key,
        find_key(frames, key) < frames.len() ==> frames[find_key(frames, key)].key() == key,
    decreases frames.len(),
{
    if frames.len() == 0 || frames[0].key() == key {
    } else {
        lemma_find_key(frames.skip(1), key);
        assert forall|i: int| 0 <= i < find_key(frames, key) implies (#[trigger] frames[i]).key()
            != key by {
            if i > 0 {
                assert(frames[i] == frames.skip(1)[i - 1]);
            }
        }
    }
}

/// Deduplicating store of [`Frame`]s, shared by every thread of a [`Profile`].
///
/// Frames are deduplicated by their identity ([`Frame::key`]), so every
/// occurrence of a function is one frame whatever its instruction pointer.
pub struct FrameTable {
    frames: Vec<Frame>,
    index: StringHashMap<FrameId>,
}

impl View for FrameTable {
    type V = Seq<FrameModel>;

    closed spec fn view(&self) -> Seq<FrameModel> {
        self.frames@.map_values(|f: Frame| f@)
    }
}

impl FrameTable {
    /// The index lists every frame under its identity, and nothing else.
    pub closed spec fn wf(&self) -> bool {
        &&& distinct_keys(self@)
        &&& forall|i: int|
            0 <= i < self@.len() ==> self.index@.contains_key((#[trigger] self@[i]).key())
                && self.index@[self@[i].key()] == id_at(i)
        &&& forall|k: Seq<char>| #[trigger]
            self.index@.contains_key(k) ==> find_key(self@, k) < self@.len()
    }

    /// A table holds no identity twice.
    pub proof fn law_identities_are_distinct(&self)
        requires
            self.wf(),
        ensures
            distinct_keys(self@),
    {
    }

    /// Returns the id for `frame`, inserting it if its identity has not been seen
    /// before.
    pub fn intern(&mut self, frame: Frame) -> (id: FrameId)
        requires
            old(self).wf(),
        ensures
            final(self).wf(),
            final(self)@ == interned(old(self)@, frame@),
            id == id_at(find_key(old(self)@, frame@.key())),
    {
        proof {
            lemma_find_key(self@, frame@.key());
        }
        if let Some(id) = self.index.get(frame.key()) {
            return *id;
        }
        proof {
            if find_key(self@, frame@.key()) < self@.len() {
                assert(self.index@.contains_key(self@[find_key(self@, frame@.key())].key()));
            }
        }
        let n = self.frames.len();
        let id: FrameId = truncate_id(n);
        let key = frame.key().to_owned();
        self.index.insert(key, id);
        self.frames.push(frame);
        proof {
            let before = old(self)@;
            let after = self@;
            assert(after =~= before.push(frame@));
            assert forall|k: Seq<char>| #[trigger] self.index@.contains_key(k) implies find_key(
                after,
                k,
            ) < after.len() by {
                lemma_find_key(after, k);
                if k == frame@.key() {
                    assert(after[n as int].key() == k);
                } else {
                    assert(old(self).index@.contains_key(k));
                    lemma_find_key(before, k);
                    assert(after[find_key(before, k)].key() == k);
                }
            }
        }
        id
    }

    /// Resolves an id back to its [`Frame`].
    pub fn get(&self, id: FrameId) -> (r: &Frame)
        requires
            (id as int) < self@.len(),
        ensures
            r@ == self@[id as int],
    {
        &self.frames[id as usize]
    }

    /// Number of distinct interned frames.
    pub fn len(&self) -> (r: usize)
        ensures
            r == self@.len(),
    {
        self.frames.len()
    }

    /// Whether no frame was interned.
    pub fn is_empty(&self) -> (r: bool)
        ensures
            r == (self@.len() == 0),
    {
        self.frames.len() == 0
    }
}

/// A position as an id.
fn truncate_id(n: usize) -> (id: FrameId)
    ensures
        id == id_at(n as int),
{
    let wide: u64 = n as u64;
    assert(wide as u32 == wide % 0x1_0000_0000) by (bit_vector);
    #[verifier::truncate]
    (wide as u32)
}

impl Default for FrameTable {
    /// The empty table.
    fn default() -> (r: Self)
        ensures
            r.wf(),
            r@ == Seq::<FrameModel>::empty(),
    {
        let r = FrameTable { frames: Vec::new(), index: StringHashMap::new() };
        assert(r@ =~= Seq::<FrameModel>::empty());
        r
    }
}

// ---------------------------------------------------------------------------
// Samples and threads
// ---------------------------------------------------------------------------

/// A single profiler sample: a stack captured at a point in time.
#[derive(Debug, Clone)]
pub struct Sample<T> {
    /// When the sample was taken.
    pub timestamp_ns: T,
    /// Stack frames ordered leaf first: the innermost frame is at index 0 and the
    /// outermost frame is last.
    pub stack: Vec<FrameId>,
    /// How many profiling events this sample stands for: the `perf` period, or 1
    /// where the format records none.
    pub weight: u64,
}

/// What a [`Sample`] holds.
#[verifier::ext_equal]
pub struct SampleModel<T> {
    pub timestamp_ns: T,
    pub stack: Seq<FrameId>,
    pub weight: u64,
}

impl<T> View for Sample<T> {
    type V = SampleModel<T>;

    open spec fn view(&self) -> SampleModel<T> {
        SampleModel { timestamp_ns: self.timestamp_ns, stack: self.stack@, weight: self.weight }
    }
}

/// What the samples of a list hold.
pub open spec fn sample_models<T>(samples: Seq<Sample<T>>) -> Seq<SampleModel<T>> {
    samples.map_values(|s: Sample<T>| s@)
}

/// The sum of the weights of `samples`.
pub open spec fn weight_sum<T>(samples: Seq<SampleModel<T>>) -> nat
    decreases samples.len(),
{
    if samples.len() == 0 {
        0
    } else {
        weight_sum(samples.drop_last()) + samples.last().weight as nat
    }
}

/// The events of a list of samples are the sum of their weights.
pub proof fn law_weight_sum<T>(samples: Seq<SampleModel<T>>)
    ensures
        weight_sum(samples) == samples.fold_left(
            0int,
            |sum: int, s: SampleModel<T>| sum + s.weight,
        ),
    decreases samples.len(),
{
    if samples.len() > 0 {
        law_weight_sum(samples.drop_last());
    }
}

/// Every stack refers to frames of a table of `n` frames.
pub open spec fn stacks_within<T>(samples: Seq<SampleModel<T>>, n: int) -> bool {
    forall|i: int, j: int|
        0 <= i < samples.len() && 0 <= j < samples[i].stack.len() ==> (
        #[trigger] samples[i].stack[j] as int) < n
}

/// A single thread of execution and its samples.
#[derive(Clone)]
pub struct Thread<T> {
    pub pid: u64,
    pub tid: u64,
    pub name: Option<String>,
    /// Samples in the order in which they were recorded.
    pub samples: Vec<Sample<T>>,
    /// Frame table shared by every thread of the profile.
    pub frames: Arc<FrameTable>,
}

/// What a [`Thread`] holds.
#[verifier::ext_equal]
pub struct ThreadModel<T> {
    pub pid: u64,
    pub tid: u64,
    pub name: Option<Seq<char>>,
    pub samples: Seq<SampleModel<T>>,
    pub frames: Seq<FrameModel>,
}

impl<T> ThreadModel<T> {
    /// The identity of one of the thread's frames.
    pub open spec fn key(self, id: FrameId) -> Seq<char> {
        self.frames[id as int].key()
    }

    /// Every stack refers to frames of the table, which hold no identity twice.
    pub open spec fn ok(self) -> bool {
        distinct_keys(self.frames) && stacks_within(self.samples, self.frames.len() as int)
    }

    /// The thread's label: its name, where it has one, and its ids.
    pub open spec fn label(self) -> Seq<char> {
        let ids = crate::text::decimal(self.pid as nat).push('/') + crate::text::decimal(
            self.tid as nat,
        );
        match self.name {
            Some(name) => if name.len() > 0 {
                (name + seq![' ', '['] + ids).push(']')
            } else {
                ids
            },
            None => ids,
        }
    }

    /// The depth of the deepest stack.
    pub open spec fn max_depth(self) -> nat {
        deepest(self.samples)
    }
}

/// The depth of the deepest stack of `samples`.
pub open spec fn deepest<T>(samples: Seq<SampleModel<T>>) -> nat
    decreases samples.len(),
{
    if samples.len() == 0 {
        0
    } else {
        let rest = deepest(samples.drop_last());
        if rest < samples.last().stack.len() {
            samples.last().stack.len()
        } else {
            rest
        }
    }
}

/// No stack is deeper than the deepest, and one is as deep.
pub proof fn lemma_deepest<T>(samples: Seq<SampleModel<T>>)
    ensures
        forall|i: int|
            0 <= i < samples.len() ==> (#[trigger] samples[i]).stack.len() <= deepest(samples),
        samples.len() > 0 ==> exists|i: int|
            0 <= i < samples.len() && (#[trigger] samples[i]).stack.len() == deepest(samples),
    decreases samples.len(),
{
    if samples.len() > 0 {
        let rest = samples.drop_last();
        lemma_deepest(rest);
        assert forall|i: int| 0 <= i < samples.len() implies (#[trigger] samples[i]).stack.len() <= deepest(
            samples,
        ) by {
            if i < rest.len() {
                assert(samples[i] == rest[i]);
            }
        }
        if deepest(rest) < samples.last().stack.len() || rest.len() == 0 {
            assert(samples[samples.len() - 1].stack.len() == deepest(samples));
        } else {
            let i = choose|i: int|
                0 <= i < rest.len() && (#[trigger] rest[i]).stack.len() == deepest(rest);
            assert(samples[i].stack.len() == deepest(samples));
        }
    }
}

impl<T> View for Thread<T> {
    type V = ThreadModel<T>;

    open spec fn view(&self) -> ThreadModel<T> {
        ThreadModel {
            pid: self.pid,
            tid: self.tid,
            name: opt_text(self.name),
            samples: sample_models(self.samples@),
            frames: self.frames@,
        }
    }
}

/// Longer lists of samples weigh no less.
pub proof fn lemma_weight_sum_grows<T>(samples: Seq<SampleModel<T>>, i: int)
    requires
        0 <= i <= samples.len(),
    ensures
        weight_sum(samples.take(i)) <= weight_sum(samples),
    decreases samples.len() - i,
{
    if i < samples.len() {
        lemma_weight_sum_grows(samples, i + 1);
        assert(samples.take(i + 1).drop_last() =~= samples.take(i));
    } else {
        assert(samples.take(i) =~= samples);
    }
}

impl<T> Thread<T> {
    /// Resolves one of this thread's [`FrameId`]s to its [`Frame`].
    pub fn frame(&self, id: FrameId) -> (r: &Frame)
        requires
            (id as int) < self@.frames.len(),
        ensures
            r@ == self@.frames[id as int],
    {
        self.frames.get(id)
    }

    /// The identity of one of this thread's frames (see [`Frame::key`]).
    pub fn key(&self, id: FrameId) -> (r: &str)
        requires
            (id as int) < self@.frames.len(),
        ensures
            r@ == self@.key(id),
    {
        self.frames.get(id).key()
    }

    /// A human-readable label such as `rg [64477/64477]`, or `64477/64477` for a
    /// thread without a name.
    pub fn label(&self) -> (r: String)
        ensures
            r@ == self@.label(),
    {
        let mut out = String::new();
        let named = match &self.name {
            Some(name) => !name.as_str().is_empty(),
            None => false,
        };
        if named {
            if let Some(name) = &self.name {
                out.append(name.as_str());
                out.push(' ');
                out.push('[');
            }
        }
        push_decimal(&mut out, self.pid);
        out.push('/');
        push_decimal(&mut out, self.tid);
        if named {
            out.push(']');
        }
        assert(out@ =~= self@.label());
        out
    }

    /// The depth of the deepest stack.
    pub fn max_depth(&self) -> (r: usize)
        ensures
            r == self@.max_depth(),
    {
        let n = self.samples.len();
        let ghost all = self@.samples;
        let mut r: usize = 0;
        for i in 0..n
            invariant
                n == self.samples@.len(),
                all == sample_models(self.samples@),
                r == deepest(all.take(i as int)),
        {
            let depth = self.samples[i].stack.len();
            assert(all.take(i + 1).drop_last() =~= all.take(i as int));
            assert(all.take(i + 1).last() == self.samples@[i as int]@);
            if r < depth {
                r = depth;
            }
        }
        assert(all.take(n as int) =~= all);
        r
    }

    /// Total profiling events of this thread: the sum of its samples' weights,
    /// where it fits.
    pub fn checked_event_count(&self) -> (r: Option<u64>)
        ensures
            (match r {
                Some(total) => total == weight_sum(self@.samples),
                None => weight_sum(self@.samples) > u64::MAX,
            }),
    {
        let n = self.samples.len();
        let ghost all = self@.samples;
        let mut total: u64 = 0;
        for i in 0..n
            invariant
                n == self.samples@.len(),
                all == sample_models(self.samples@),
                total == weight_sum(all.take(i as int)),
        {
            let w = self.samples[i].weight;
            proof {
                assert(all.take(i + 1).drop_last() =~= all.take(i as int));
                assert(all.take(i + 1).last() == self.samples@[i as int]@);
                lemma_weight_sum_grows(all, i + 1);
            }
            if w > u64::MAX - total {
                return None;
            }
            total = total + w;
        }
        assert(all.take(n as int) =~= all);
        Some(total)
    }

    /// Total profiling events of this thread: the sum of its samples' weights.
    pub fn event_count(&self) -> (r: u64)
        requires
            weight_sum(self@.samples) <= u64::MAX,
        ensures
            r == weight_sum(self@.samples),
    {
        self.checked_event_count().unwrap()
    }
}

impl<T: Copy> Thread<T> {
    /// When this thread's first sample was taken, or `None` when it has none.
    pub fn first_timestamp_ns(&self) -> (r: Option<T>)
        ensures
            r == (if self@.samples.len() > 0 {
                Some(self@.samples[0].timestamp_ns)
            } else {
                None
            }),
    {
        if self.samples.len() > 0 {
            assert(self@.samples[0] == self.samples@[0]@);
            Some(self.samples[0].timestamp_ns)
        } else {
            None
        }
    }

    /// When this thread's last sample was taken, or `None` when it has none.
    pub fn last_timestamp_ns(&self) -> (r: Option<T>)
        ensures
            r == (if self@.samples.len() > 0 {
                Some(self@.samples.last().timestamp_ns)
            } else {
                None
            }),
    {
        let n = self.samples.len();
        if n > 0 {
            assert(self@.samples.last() == self.samples@[n - 1]@);
            Some(self.samples[n - 1].timestamp_ns)
        } else {
            None
        }
    }
}

// ---------------------------------------------------------------------------
// Profiles
// ---------------------------------------------------------------------------

/// A parsed profile: a set of threads, each with its own samples.
#[derive(Clone)]
pub struct Profile<T> {
    pub threads: Vec<Thread<T>>,
}

impl<T> View for Profile<T> {
    type V = Seq<ThreadModel<T>>;

    open spec fn view(&self) -> Seq<ThreadModel<T>> {
        self.threads@.map_values(|t: Thread<T>| t@)
    }
}

/// The number of samples of all `threads`.
pub open spec fn sample_total<T>(threads: Seq<ThreadModel<T>>) -> nat
    decreases threads.len(),
{
    if threads.len() == 0 {
        0
    } else {
        sample_total(threads.drop_last()) + threads.last().samples.len()
    }
}

/// The number of events of all `threads`.
pub open spec fn event_total<T>(threads: Seq<ThreadModel<T>>) -> nat
    decreases threads.len(),
{
    if threads.len() == 0 {
        0
    } else {
        event_total(threads.drop_last()) + weight_sum(threads.last().samples)
    }
}

/// Longer lists of threads hold no less.
pub proof fn lemma_totals_grow<T>(threads: Seq<ThreadModel<T>>, i: int)
    requires
        0 <= i <= threads.len(),
    ensures
        sample_total(threads.take(i)) <= sample_total(threads),
        event_total(threads.take(i)) <= event_total(threads),
    decreases threads.len() - i,
{
    if i < threads.len() {
        lemma_totals_grow(threads, i + 1);
        assert(threads.take(i + 1).drop_last() =~= threads.take(i));
    } else {
        assert(threads.take(i) =~= threads);
    }
}

/// A thread's events and samples are among those of the profile.
pub proof fn lemma_totals_cover<T>(threads: Seq<ThreadModel<T>>, i: int)
    requires
        0 <= i < threads.len(),
    ensures
        threads[i].samples.len() <= sample_total(threads),
        weight_sum(threads[i].samples) <= event_total(threads),
{
    lemma_totals_grow(threads, i + 1);
    assert(threads.take(i + 1).last() == threads[i]);
}

/// Thread `a` is listed before thread `b`: it has more samples, or as many and a
/// smaller index.
pub open spec fn busier<T>(threads: Seq<ThreadModel<T>>, a: int, b: int) -> bool {
    threads[a].samples.len() > threads[b].samples.len() || (threads[a].samples.len()
        == threads[b].samples.len() && a < b)
}

/// `order` lists the index of every thread once, the busiest first.
pub open spec fn busiest_first<T>(order: Seq<usize>, threads: Seq<ThreadModel<T>>) -> bool {
    &&& order.len() == threads.len()
    &&& forall|i: int| 0 <= i < order.len() ==> (#[trigger] order[i] as int) < threads.len()
    &&& forall|i: int, j: int|
        0 <= i < j < order.len() ==> busier(
            threads,
            #[trigger] order[i] as int,
            #[trigger] order[j] as int,
        )
    &&& forall|k: usize| (k as int) < threads.len() ==> #[trigger] order.contains(k)
}

/// There is one such order.
pub proof fn law_order_is_determined<T>(
    a: Seq<usize>,
    b: Seq<usize>,
    threads: Seq<ThreadModel<T>>,
)
    requires
        busiest_first(a, threads),
        busiest_first(b, threads),
    ensures
        a == b,
{
    assert forall|i: int| 0 <= i < a.len() implies a[i] == b[i] by {
        lemma_same_place(a, b, threads, i);
    }
    assert(a =~= b);
}

proof fn lemma_same_place<T>(
    a: Seq<usize>,
    b: Seq<usize>,
    threads: Seq<ThreadModel<T>>,
    i: int,
)
    requires
        busiest_first(a, threads),
        busiest_first(b, threads),
        0 <= i < a.len(),
    ensures
        a[i] == b[i],
    decreases i,
{
    assert forall|j: int| 0 <= j < i implies #[trigger] a[j] == b[j] by {
        lemma_same_place(a, b, threads, j);
    }
    assert(b.contains(a[i]));
    let k = choose|k: int| 0 <= k < b.len() && b[k] == a[i];
    if k < i {
        assert(a[k] == b[k]);
        assert(busier(threads, a[k] as int, a[i] as int));
    }
    if k > i {
        assert(a.contains(b[i]));
        let m = choose|m: int| 0 <= m < a.len() && a[m] == b[i];
        if m < i {
            assert(a[m] == b[m]);
            assert(busier(threads, b[m] as int, b[i] as int));
        }
        assert(busier(threads, b[i] as int, b[k] as int));
        if m > i {
            assert(busier(threads, a[i] as int, a[m] as int));
        }
    }
}

/// A thread's place in the order of the busiest.
struct ThreadRank {
    samples: usize,
    index: usize,
}

impl Ranked for ThreadRank {
    closed spec fn precedes(&self, other: &Self) -> bool {
        self.samples > other.samples || (self.samples == other.samples && self.index < other.index)
    }

    proof fn asymmetric(a: &Self, b: &Self) {
    }

    proof fn transitive(a: &Self, b: &Self, c: &Self) {
    }

    fn comes_first(&self, other: &Self) -> (r: bool) {
        self.samples > other.samples || (self.samples == other.samples && self.index < other.index)
    }
}

impl<T> Profile<T> {
    /// Number of samples of all threads.
    pub fn total_samples(&self) -> (r: usize)
        requires
            sample_total(self@) <= usize::MAX,
        ensures
            r == sample_total(self@),
    {
        let n = self.threads.len();
        let ghost all = self@;
        let mut total: usize = 0;
        for i in 0..n
            invariant
                n == self.threads@.len(),
                all == self@,
                total == sample_total(all.take(i as int)),
                sample_total(all) <= usize::MAX,
        {
            proof {
                assert(all.take(i + 1).drop_last() =~= all.take(i as int));
                assert(all.take(i + 1).last() == self.threads@[i as int]@);
                lemma_totals_grow(all, i + 1);
            }
            total = total + self.threads[i].samples.len();
        }
        assert(all.take(n as int) =~= all);
        total
    }

    /// Total profiling events of all threads, where it fits.
    pub fn checked_event_count(&self) -> (r: Option<u64>)
        ensures
            (match r {
                Some(total) => total == event_total(self@),
                None => event_total(self@) > u64::MAX,
            }),
    {
        let n = self.threads.len();
        let ghost all = self@;
        let mut total: u64 = 0;
        for i in 0..n
            invariant
                n == self.threads@.len(),
                all == self@,
                total == event_total(all.take(i as int)),
        {
            proof {
                assert(all.take(i + 1).drop_last() =~= all.take(i as int));
                assert(all.take(i + 1).last() == self.threads@[i as int]@);
                lemma_totals_grow(all, i + 1);
            }
            match self.threads[i].checked_event_count() {
                Some(events) => {
                    if events > u64::MAX - total {
                        return None;
                    }
                    total = total + events;
                },
                None => {
                    return None;
                },
            }
        }
        assert(all.take(n as int) =~= all);
        Some(total)
    }

    /// Total profiling events of all threads (sum of sample weights).
    pub fn event_count(&self) -> (r: u64)
        requires
            event_total(self@) <= u64::MAX,
        ensures
            r == event_total(self@),
    {
        self.checked_event_count().unwrap()
    }

    /// Whether the profile has no samples.
    pub fn is_empty(&self) -> (r: bool)
        ensures
            r == (sample_total(self@) == 0),
    {
        let n = self.threads.len();
        let ghost all = self@;
        for i in 0..n
            invariant
                n == self.threads@.len(),
                all == self@,
                sample_total(all.take(i as int)) == 0,
        {
            proof {
                assert(all.take(i + 1).drop_last() =~= all.take(i as int));
                assert(all.take(i + 1).last() == self.threads@[i as int]@);
                lemma_totals_grow(all, i + 1);
            }
            if self.threads[i].samples.len() > 0 {
                return false;
            }
        }
        assert(all.take(n as int) =~= all);
        true
    }

    /// Thread indices ordered by descending sample count, ties by ascending
    /// index, so that index 0 is the busiest thread.
    pub fn threads_by_samples(&self) -> (r: Vec<usize>)
        ensures
            busiest_first(r@, self@),
    {
        let n = self.threads.len();
        let mut ranks: Vec<ThreadRank> = Vec::new();
        for i in 0..n
            invariant
                n == self.threads@.len(),
                ranks@.len() == i,
                forall|k: int|
                    0 <= k < i ==> (#[trigger] ranks@[k]).index == k && ranks@[k].samples
                        == self@[k].samples.len(),
        {
            ranks.push(ThreadRank { samples: self.threads[i].samples.len(), index: i });
        }
        let ghost listed = ranks@;
        let sorted = sort(ranks);
        proof {
            crate::sort::lemma_same_values(listed, sorted@);
            listed.to_multiset_ensures();
            sorted@.to_multiset_ensures();
            assert forall|k: int| 0 <= k < n implies {
                &&& (#[trigger] sorted@[k]).index < n
                &&& sorted@[k] == listed[sorted@[k].index as int]
            } by {
                assert(sorted@.contains(sorted@[k]));
                assert(listed.contains(sorted@[k]));
            }
            assert(listed.no_duplicates());
            listed.lemma_multiset_has_no_duplicates();
            assert(sorted@.to_multiset() == listed.to_multiset());
            sorted@.lemma_multiset_has_no_duplicates_conv();
        }
        let mut order: Vec<usize> = Vec::new();
        for i in 0..n
            invariant
                n == sorted@.len(),
                order@.len() == i,
                forall|k: int| 0 <= k < i ==> #[trigger] order@[k] == sorted@[k].index,
        {
            order.push(sorted[i].index);
        }
        proof {
            assert forall|i: int, j: int| 0 <= i < j < order@.len() implies busier(
                self@,
                #[trigger] order@[i] as int,
                #[trigger] order@[j] as int,
            ) by {
                assert(!sorted@[j].precedes(&sorted@[i]));
                assert(sorted@[i] != sorted@[j]);
                assert(listed[sorted@[i].index as int] == sorted@[i]);
                assert(listed[sorted@[j].index as int] == sorted@[j]);
            }
            assert forall|k: usize|
                (k as int) < self@.len() implies #[trigger] order@.contains(k) by {
                assert(listed.contains(listed[k as int]));
                assert(sorted@.contains(listed[k as int]));
                let i = choose|i: int| 0 <= i < sorted@.len() && sorted@[i] == listed[k as int];
                assert(order@[i] == k);
            }
        }
        order
    }

    /// Index of the thread with the most samples, the first of them.
    pub fn busiest_thread(&self) -> (r: Option<usize>)
        ensures
            (match r {
                Some(b) => (b as int) < self@.len() && forall|k: int|
                    0 <= k < self@.len() && k != b ==> #[trigger] busier(self@, b as int, k),
                None => self@.len() == 0,
            }),
    {
        let order = self.threads_by_samples();
        if order.len() == 0 {
            return None;
        }
        let b = order[0];
        proof {
            assert forall|k: int| 0 <= k < self@.len() && k != b implies #[trigger] busier(
                self@,
                b as int,
                k,
            ) by {
                assert(self@.len() == self.threads@.len());
                assert(order@.contains(k as usize));
                let j = choose|j: int| 0 <= j < order@.len() && order@[j] == k as usize;
                assert(order@[0] == b);
                assert(j > 0);
            }
        }
        Some(b)
    }
}

impl<T> Default for Profile<T> {
    /// The profile without threads.
    fn default() -> (r: Self)
        ensures
            r@ == Seq::<ThreadModel<T>>::empty(),
    {
        let r = Profile { threads: Vec::new() };
        assert(r@ =~= Seq::<ThreadModel<T>>::empty());
        r
    }
}

/// A thread with its samples' times replaced one for one by what `f` gives.
pub open spec fn retimed<T, U, F: Fn(T) -> U>(
    before: ThreadModel<T>,
    after: ThreadModel<U>,
    f: F,
) -> bool {
    &&& after.pid == before.pid
    &&& after.tid == before.tid
    &&& after.name == before.name
    &&& after.frames == before.frames
    &&& after.samples.len() == before.samples.len()
    &&& forall|i: int|
        0 <= i < before.samples.len() ==> {
            &&& (#[trigger] after.samples[i]).stack == before.samples[i].stack
            &&& after.samples[i].weight == before.samples[i].weight
            &&& call_ensures(f, (before.samples[i].timestamp_ns,), after.samples[i].timestamp_ns)
        }
}

impl<T> Profile<T> {
    /// Replaces every sample's time by what `f` gives for it; all else stays.
    pub fn map_times<U, F: Fn(T) -> U>(self, f: F) -> (r: Profile<U>)
        requires
            forall|t: T| call_requires(f, (t,)),
        ensures
            r@.len() == self@.len(),
            forall|i: int| 0 <= i < self@.len() ==> retimed(self@[i], #[trigger] r@[i], f),
    {
        let ghost before = self@;
        let mut threads: Vec<Thread<U>> = Vec::new();
        for thread in it: self.threads
            invariant
                it.seq() == self.threads@,
                before == self@,
                forall|t: T| call_requires(f, (t,)),
                threads@.len() == it.index(),
                forall|i: int|
                    0 <= i < it.index() ==> retimed(before[i], (#[trigger] threads@[i])@, f),
        {
            let ghost model = thread@;
            let ghost given = thread.samples@;
            let mut samples: Vec<Sample<U>> = Vec::new();
            for sample in inner: thread.samples
                invariant
                    inner.seq() == given,
                    forall|t: T| call_requires(f, (t,)),
                    samples@.len() == inner.index(),
                    forall|i: int|
                        0 <= i < inner.index() ==> {
                            &&& (#[trigger] samples@[i])@.stack == given[i]@.stack
                            &&& samples@[i]@.weight == given[i]@.weight
                            &&& call_ensures(
                                f,
                                (given[i].timestamp_ns,),
                                samples@[i].timestamp_ns,
                            )
                        },
            {
                let timestamp_ns = f(sample.timestamp_ns);
                samples.push(Sample { timestamp_ns, stack: sample.stack, weight: sample.weight });
            }
            let out = Thread {
                pid: thread.pid,
                tid: thread.tid,
                name: thread.name,
                samples,
                frames: thread.frames,
            };
            assert(retimed(model, out@, f));
            threads.push(out);
        }
        Profile { threads }
    }
}

// ---------------------------------------------------------------------------
// Building a profile from an interleaved stream of samples
// ---------------------------------------------------------------------------

/// Position of the first thread with the given ids, or the number of threads.
pub open spec fn find_thread<T>(threads: Seq<ThreadModel<T>>, pid: u64, tid: u64) -> int
    decreases threads.len(),
{
    if threads.len() == 0 || (threads[0].pid == pid && threads[0].tid == tid) {
        0
    } else {
        1 + find_thread(threads.skip(1), pid, tid)
    }
}

pub proof fn lemma_find_thread<T>(threads: Seq<ThreadModel<T>>, pid: u64, tid: u64)
    ensures
        0 <= find_thread(threads, pid, tid) <= threads.len(),
        forall|i: int|
            0 <= i < find_thread(threads, pid, tid) ==> !((#[trigger] threads[i]).pid == pid
                && threads[i].tid == tid),
        find_thread(threads, pid, tid) < threads.len() ==> threads[find_thread(
            threads,
            pid,
            tid,
        )].pid == pid && threads[find_thread(threads, pid, tid)].tid == tid,
    decreases threads.len(),
{
    if threads.len() == 0 || (threads[0].pid == pid && threads[0].tid == tid) {
    } else {
        lemma_find_thread(threads.skip(1), pid, tid);
        assert forall|i: int| 0 <= i < find_thread(threads, pid, tid) implies !((
        #[trigger] threads[i]).pid == pid && threads[i].tid == tid) by {
            if i > 0 {
                assert(threads[i] == threads.skip(1)[i - 1]);
            }
        }
    }
}

/// The threads after one more sample was recorded: it goes to the thread with its
/// ids, which takes the name where it had none, or to a new thread at the end.
pub open spec fn recorded<T>(
    threads: Seq<ThreadModel<T>>,
    pid: u64,
    tid: u64,
    name: Option<Seq<char>>,
    sample: SampleModel<T>,
) -> Seq<ThreadModel<T>> {
    let i = find_thread(threads, pid, tid);
    if i < threads.len() {
        let t = threads[i];
        threads.update(
            i,
            ThreadModel {
                name: if t.name is None {
                    name
                } else {
                    t.name
                },
                samples: t.samples.push(sample),
                ..t
            },
        )
    } else {
        threads.push(
            ThreadModel { pid, tid, name, samples: seq![sample], frames: Seq::empty() },
        )
    }
}

/// The threads with the frame table `frames` put in.
pub open spec fn with_frames<T>(
    threads: Seq<ThreadModel<T>>,
    frames: Seq<FrameModel>,
) -> Seq<ThreadModel<T>> {
    threads.map_values(|t: ThreadModel<T>| ThreadModel { frames, ..t })
}

/// Groups an interleaved stream of samples tagged with `(pid, tid)` into
/// [`Thread`]s, keeping each thread's samples in order and interning their frames
/// into one shared [`FrameTable`].
pub struct ThreadBuilder<T> {
    threads: Vec<Thread<T>>,
    /// Where each thread stands in `threads`, by its two ids in one number.
    index: HashMap<u128, usize>,
    frames: FrameTable,
}

/// The two ids of a thread in one number.
spec fn joined(pid: u64, tid: u64) -> u128 {
    (pid * 0x1_0000_0000_0000_0000 + tid) as u128
}

/// Joins the two ids of a thread.
fn join(pid: u64, tid: u64) -> (r: u128)
    ensures
        r == joined(pid, tid),
{
    pid as u128 * 0x1_0000_0000_0000_0000 + tid as u128
}

/// The index lists every thread under its ids, and nothing else.
spec fn indexed<T>(index: Map<u128, usize>, threads: Seq<ThreadModel<T>>) -> bool {
    &&& forall|i: int|
        0 <= i < threads.len() ==> index.contains_key(
            joined((#[trigger] threads[i]).pid, threads[i].tid),
        ) && index[joined(threads[i].pid, threads[i].tid)] == i
    &&& forall|k: u128| #[trigger]
        index.contains_key(k) ==> (index[k] as int) < threads.len() && joined(
            threads[index[k] as int].pid,
            threads[index[k] as int].tid,
        ) == k
}

/// The index finds the thread that has the ids.
proof fn lemma_indexed<T>(
    index: Map<u128, usize>,
    threads: Seq<ThreadModel<T>>,
    pid: u64,
    tid: u64,
)
    requires
        indexed(index, threads),
    ensures
        index.contains_key(joined(pid, tid)) <==> find_thread(threads, pid, tid) < threads.len(),
        index.contains_key(joined(pid, tid)) ==> index[joined(pid, tid)] == find_thread(
            threads,
            pid,
            tid,
        ),
{
    lemma_find_thread(threads, pid, tid);
    let i = find_thread(threads, pid, tid);
    if i < threads.len() {
        assert(index.contains_key(joined(threads[i].pid, threads[i].tid)));
    }
    if index.contains_key(joined(pid, tid)) {
        let k = index[joined(pid, tid)] as int;
        assert(joined(threads[k].pid, threads[k].tid) == joined(pid, tid));
        assert(threads[k].pid == pid && threads[k].tid == tid);
    }
}

impl<T> ThreadBuilder<T> {
    /// The threads so far.
    pub closed spec fn threads(&self) -> Seq<ThreadModel<T>> {
        self.threads@.map_values(|t: Thread<T>| t@)
    }

    /// The frames so far.
    pub closed spec fn frames(&self) -> Seq<FrameModel> {
        self.frames@
    }

    /// The frame table and the index of the threads are in good order.
    pub closed spec fn wf(&self) -> bool {
        self.frames.wf() && indexed(self.index@, self.threads())
    }

    /// Interns a frame, returning the id to store in a sample's stack.
    pub fn intern(&mut self, frame: Frame) -> (id: FrameId)
        requires
            old(self).wf(),
        ensures
            final(self).wf(),
            final(self).threads() == old(self).threads(),
            final(self).frames() == interned(old(self).frames(), frame@),
            id == id_at(find_key(old(self).frames(), frame@.key())),
    {
        self.frames.intern(frame)
    }

    /// Records a sample of the thread `(pid, tid)`.
    pub fn push(&mut self, pid: u64, tid: u64, name: Option<String>, sample: Sample<T>)
        requires
            old(self).wf(),
        ensures
            final(self).wf(),
            final(self).frames() == old(self).frames(),
            final(self).threads() == recorded(
                old(self).threads(),
                pid,
                tid,
                opt_text(name),
                sample@,
            ),
    {
        broadcast use vstd::std_specs::hash::group_hash_axioms;

        let ghost before = self.threads();
        let key = join(pid, tid);
        proof {
            lemma_indexed(self.index@, before, pid, tid);
            lemma_find_thread(before, pid, tid);
        }
        let found = match self.index.get(&key) {
            Some(i) => Some(*i),
            None => None,
        };
        if let Some(i) = found {
            let ghost was = self.threads@[i as int];
            if self.threads[i].name.is_none() {
                self.threads[i].name = name;
            }
            self.threads[i].samples.push(sample);
            proof {
                let now = self.threads@[i as int];
                assert(now@.samples =~= was@.samples.push(sample@));
                assert(self.threads() =~= recorded(before, pid, tid, opt_text(name), sample@));
            }
        } else {
            let n = self.threads.len();
            let mut samples: Vec<Sample<T>> = Vec::new();
            samples.push(sample);
            let frames = Arc::new(FrameTable::default());
            let thread = Thread { pid, tid, name, samples, frames };
            assert(thread@.samples =~= seq![sample@]);
            self.index.insert(key, n);
            self.threads.push(thread);
            assert(self.threads() =~= recorded(before, pid, tid, opt_text(name), sample@));
        }
    }

    /// The profile of the recorded threads.
    ///
    /// All threads point to one and the same table. That they share it, and do not
    /// each hold an equal copy, is not part of the contract: a shared pointer counts
    /// as its value there.
    pub fn finish(self) -> (r: Profile<T>)
        ensures
            r@ == with_frames(self.threads(), self.frames()),
    {
        let ghost before = self.threads();
        let ghost table = self.frames();
        let shared = Arc::new(self.frames);
        let mut threads: Vec<Thread<T>> = Vec::new();
        for thread in it: self.threads
            invariant
                it.seq() == self.threads@,
                before == self.threads(),
                table == shared@,
                threads@.len() == it.index(),
                forall|i: int|
                    0 <= i < it.index() ==> (#[trigger] threads@[i])@ == (ThreadModel {
                        frames: table,
                        ..before[i]
                    }),
        {
            let out = Thread {
                pid: thread.pid,
                tid: thread.tid,
                name: thread.name,
                samples: thread.samples,
                frames: share(&shared),
            };
            threads.push(out);
        }
        let r = Profile { threads };
        assert(r@ =~= with_frames(before, table));
        r
    }
}

impl<T> Default for ThreadBuilder<T> {
    /// A builder with nothing recorded.
    fn default() -> (r: Self)
        ensures
            r.wf(),
            r.threads() == Seq::<ThreadModel<T>>::empty(),
            r.frames() == Seq::<FrameModel>::empty(),
    {
        let r = ThreadBuilder {
            threads: Vec::new(),
            index: HashMap::new(),
            frames: FrameTable::default(),
        };
        assert(r.threads() =~= Seq::<ThreadModel<T>>::empty());
        r
    }
}

/// A call of a [`ThreadBuilder`]: `intern` or `push`.
#[verifier::ext_equal]
pub enum BuildStep<T> {
    Intern { frame: FrameModel },
    Record { pid: u64, tid: u64, name: Option<Seq<char>>, sample: SampleModel<T> },
}

impl<T> BuildStep<T> {
    /// The step records a sample of the thread `(pid, tid)`.
    pub open spec fn records(self, pid: u64, tid: u64) -> bool {
        self is Record && self->pid == pid && self->tid == tid
    }
}

/// The threads of a builder after `steps`.
pub open spec fn built_threads<T>(steps: Seq<BuildStep<T>>) -> Seq<ThreadModel<T>>
    decreases steps.len(),
{
    if steps.len() == 0 {
        Seq::empty()
    } else {
        let before = built_threads(steps.drop_last());
        match steps.last() {
            BuildStep::Intern { frame } => before,
            BuildStep::Record { pid, tid, name, sample } => recorded(
                before,
                pid,
                tid,
                name,
                sample,
            ),
        }
    }
}

/// The frames of a builder after `steps`.
pub open spec fn built_frames<T>(steps: Seq<BuildStep<T>>) -> Seq<FrameModel>
    decreases steps.len(),
{
    if steps.len() == 0 {
        Seq::empty()
    } else {
        let before = built_frames(steps.drop_last());
        match steps.last() {
            BuildStep::Intern { frame } => interned(before, frame),
            BuildStep::Record { pid, tid, name, sample } => before,
        }
    }
}

/// The profile that a builder gives after `steps`.
pub open spec fn built_profile<T>(steps: Seq<BuildStep<T>>) -> Seq<ThreadModel<T>> {
    with_frames(built_threads(steps), built_frames(steps))
}

/// The id that `intern` gives for `frame` after `steps`.
pub open spec fn id_given<T>(steps: Seq<BuildStep<T>>, frame: FrameModel) -> FrameId {
    id_at(find_key(built_frames(steps), frame.key()))
}

/// Position of the first step that records a sample of the thread, or the number of
/// steps.
pub open spec fn first_record<T>(steps: Seq<BuildStep<T>>, pid: u64, tid: u64) -> int
    decreases steps.len(),
{
    if steps.len() == 0 || steps[0].records(pid, tid) {
        0
    } else {
        1 + first_record(steps.skip(1), pid, tid)
    }
}

/// The samples that `steps` record for the thread, in order.
pub open spec fn samples_for<T>(steps: Seq<BuildStep<T>>, pid: u64, tid: u64) -> Seq<SampleModel<T>>
    decreases steps.len(),
{
    if steps.len() == 0 {
        Seq::empty()
    } else {
        let before = samples_for(steps.drop_last(), pid, tid);
        if steps.last().records(pid, tid) {
            before.push(steps.last()->sample)
        } else {
            before
        }
    }
}

/// The first name that `steps` give to the thread.
pub open spec fn name_for<T>(steps: Seq<BuildStep<T>>, pid: u64, tid: u64) -> Option<Seq<char>>
    decreases steps.len(),
{
    if steps.len() == 0 {
        None
    } else if steps[0].records(pid, tid) && steps[0]->name is Some {
        steps[0]->name
    } else {
        name_for(steps.skip(1), pid, tid)
    }
}

/// One step more, at the end.
proof fn lemma_step_more<T>(steps: Seq<BuildStep<T>>, pid: u64, tid: u64)
    requires
        steps.len() > 0,
    ensures
        0 <= first_record(steps.drop_last(), pid, tid) < steps.len(),
        first_record(steps, pid, tid) == (if first_record(steps.drop_last(), pid, tid)
            < steps.len() - 1 || steps.last().records(pid, tid) {
            first_record(steps.drop_last(), pid, tid)
        } else {
            steps.len() as int
        }),
        name_for(steps, pid, tid) == (if name_for(steps.drop_last(), pid, tid) is None
            && steps.last().records(pid, tid) {
            steps.last()->name
        } else {
            name_for(steps.drop_last(), pid, tid)
        }),
    decreases steps.len(),
{
    let rest = steps.drop_last();
    if rest.len() == 0 {
        assert(steps.skip(1) =~= Seq::<BuildStep<T>>::empty());
        assert(first_record(steps.skip(1), pid, tid) == 0);
        assert(name_for(steps.skip(1), pid, tid) is None);
        assert(steps.last() == steps[0]);
    } else {
        lemma_step_more(steps.skip(1), pid, tid);
        assert(steps.skip(1).drop_last() =~= rest.skip(1));
        assert(rest[0] == steps[0]);
        assert(steps.skip(1).last() == steps.last());
    }
}

/// Whatever calls of `intern` and `push` a builder gets, its profile has a thread for
/// each pair of ids that a sample was recorded for, and no pair twice; the threads
/// stand in the order of their first samples; and each has exactly the samples
/// recorded for it, in the order in which they came, under the first name given for
/// it.
pub proof fn law_builder_groups_samples<T>(steps: Seq<BuildStep<T>>)
    ensures
        forall|pid: u64, tid: u64|
            (first_record(steps, pid, tid) < steps.len()) <==> #[trigger] find_thread(
                built_profile(steps),
                pid,
                tid,
            ) < built_profile(steps).len(),
        forall|i: int, j: int|
            0 <= i < j < built_profile(steps).len() ==> !((#[trigger] built_profile(steps)[i]).pid
                == (#[trigger] built_profile(steps)[j]).pid && built_profile(steps)[i].tid
                == built_profile(steps)[j].tid),
        forall|i: int, j: int|
            0 <= i < j < built_profile(steps).len() ==> first_record(
                steps,
                (#[trigger] built_profile(steps)[i]).pid,
                built_profile(steps)[i].tid,
            ) < first_record(
                steps,
                (#[trigger] built_profile(steps)[j]).pid,
                built_profile(steps)[j].tid,
            ),
        forall|i: int|
            0 <= i < built_profile(steps).len() ==> {
                let t = #[trigger] built_profile(steps)[i];
                &&& t.samples == samples_for(steps, t.pid, t.tid)
                &&& t.name == name_for(steps, t.pid, t.tid)
            },
{
    let threads = built_threads(steps);
    let profile = built_profile(steps);
    lemma_grouped(steps);
    reveal(grouped);
    assert forall|pid: u64, tid: u64|
        (first_record(steps, pid, tid) < steps.len()) <==> #[trigger] find_thread(
            profile,
            pid,
            tid,
        ) < profile.len() by {
        lemma_find_thread(threads, pid, tid);
        lemma_find_thread(profile, pid, tid);
        let i = find_thread(threads, pid, tid);
        let j = find_thread(profile, pid, tid);
        if i < threads.len() {
            assert(profile[i].pid == pid);
        }
        if j < profile.len() {
            assert(threads[j].pid == pid);
        }
    }
    assert forall|i: int, j: int| 0 <= i < j < profile.len() implies first_record(
        steps,
        (#[trigger] profile[i]).pid,
        profile[i].tid,
    ) < first_record(steps, (#[trigger] profile[j]).pid, profile[j].tid) by {
        assert(profile[i].pid == threads[i].pid);
        assert(profile[j].pid == threads[j].pid);
    }
    assert forall|i: int| 0 <= i < profile.len() implies {
        let t = #[trigger] profile[i];
        &&& t.samples == samples_for(steps, t.pid, t.tid)
        &&& t.name == name_for(steps, t.pid, t.tid)
    } by {
        assert(profile[i].pid == threads[i].pid);
    }
}

/// The threads are those of the steps, in order, each with its samples and its name.
#[verifier::opaque]
spec fn grouped<T>(threads: Seq<ThreadModel<T>>, steps: Seq<BuildStep<T>>) -> bool {
    &&& forall|pid: u64, tid: u64|
        (first_record(steps, pid, tid) < steps.len()) <==> #[trigger] find_thread(
            threads,
            pid,
            tid,
        ) < threads.len()
    &&& forall|i: int, j: int|
        0 <= i < j < threads.len() ==> first_record(
            steps,
            (#[trigger] threads[i]).pid,
            threads[i].tid,
        ) < first_record(steps, (#[trigger] threads[j]).pid, threads[j].tid)
    &&& forall|i: int|
        0 <= i < threads.len() ==> (#[trigger] threads[i]).samples == samples_for(
            steps,
            threads[i].pid,
            threads[i].tid,
        ) && threads[i].name == name_for(steps, threads[i].pid, threads[i].tid)
}

/// A thread for which nothing was recorded has no samples and no name.
proof fn lemma_unrecorded<T>(steps: Seq<BuildStep<T>>, pid: u64, tid: u64)
    requires
        first_record(steps, pid, tid) >= steps.len(),
    ensures
        samples_for(steps, pid, tid) == Seq::<SampleModel<T>>::empty(),
        name_for(steps, pid, tid) is None,
    decreases steps.len(),
{
    if steps.len() > 0 {
        lemma_step_more(steps, pid, tid);
        lemma_unrecorded(steps.drop_last(), pid, tid);
    }
}

/// A builder's threads stay those of its steps with one step more.
proof fn lemma_grouped_more<T>(steps: Seq<BuildStep<T>>)
    requires
        steps.len() > 0,
        grouped(built_threads(steps.drop_last()), steps.drop_last()),
    ensures
        grouped(built_threads(steps), steps),
{
    reveal(grouped);
    let threads = built_threads(steps);
    let rest = steps.drop_last();
    let before = built_threads(rest);
    if let BuildStep::Record { pid, tid, name, sample } = steps.last() {
        lemma_find_thread(before, pid, tid);
    }
    assert forall|i: int| 0 <= i < before.len() implies (#[trigger] threads[i]).pid
        == before[i].pid && threads[i].tid == before[i].tid by {}
    assert forall|p: u64, t: u64| (first_record(steps, p, t) < steps.len())
        <==> #[trigger] find_thread(threads, p, t) < threads.len() by {
        lemma_step_more(steps, p, t);
        lemma_find_thread(before, p, t);
        lemma_find_thread(threads, p, t);
        let i = find_thread(before, p, t);
        let j = find_thread(threads, p, t);
        if i < before.len() {
            assert(threads[i].pid == p && threads[i].tid == t);
        }
        if j < threads.len() && j < before.len() {
            assert(before[j].pid == p && before[j].tid == t);
        }
        if steps.last().records(p, t) && i == before.len() {
            assert(threads[i].pid == p && threads[i].tid == t);
        }
    }
    assert forall|i: int, j: int| 0 <= i < j < threads.len() implies first_record(
        steps,
        (#[trigger] threads[i]).pid,
        threads[i].tid,
    ) < first_record(steps, (#[trigger] threads[j]).pid, threads[j].tid) by {
        lemma_step_more(steps, threads[i].pid, threads[i].tid);
        lemma_step_more(steps, threads[j].pid, threads[j].tid);
        lemma_find_thread(before, threads[i].pid, threads[i].tid);
        lemma_find_thread(before, threads[j].pid, threads[j].tid);
        assert(before[i].pid == threads[i].pid && before[i].tid == threads[i].tid);
        if j < before.len() {
            assert(before[j].pid == threads[j].pid && before[j].tid == threads[j].tid);
        }
    }
    assert forall|i: int| 0 <= i < threads.len() implies (#[trigger] threads[i]).samples
        == samples_for(steps, threads[i].pid, threads[i].tid) && threads[i].name == name_for(
        steps,
        threads[i].pid,
        threads[i].tid,
    ) by {
        let p = threads[i].pid;
        let t = threads[i].tid;
        lemma_step_more(steps, p, t);
        lemma_find_thread(before, p, t);
        if i < before.len() {
            assert(before[i].pid == p && before[i].tid == t);
            if let BuildStep::Record { pid, tid, name, sample } = steps.last() {
                lemma_find_thread(before, pid, tid);
                let k = find_thread(before, pid, tid);
                if k < before.len() && k < i {
                    assert(first_record(rest, before[k].pid, before[k].tid) < first_record(
                        rest,
                        before[i].pid,
                        before[i].tid,
                    ));
                }
            }
        } else {
            lemma_unrecorded(rest, p, t);
        }
    }
}

/// A builder's threads are those of its steps.
proof fn lemma_grouped<T>(steps: Seq<BuildStep<T>>)
    ensures
        grouped(built_threads(steps), steps),
    decreases steps.len(),
{
    reveal(grouped);
    if steps.len() > 0 {
        lemma_grouped(steps.drop_last());
        lemma_grouped_more(steps);
    }
}

/// Whatever calls of `intern` and `push` a builder gets, all threads of its profile
/// have one frame table, which holds no identity twice, and in which every id that
/// `intern` gave stands for a frame of the identity it was given for, as long as the
/// ids are wide enough for the table.
pub proof fn law_builder_ids_resolve<T>(steps: Seq<BuildStep<T>>)
    ensures
        distinct_keys(built_frames(steps)),
        forall|i: int|
            0 <= i < built_profile(steps).len() ==> (#[trigger] built_profile(steps)[i]).frames
                == built_frames(steps),
        built_frames(steps).len() <= 0x1_0000_0000 ==> forall|k: int|
            0 <= k < steps.len() && (#[trigger] steps[k]) is Intern ==> {
                let id = id_given(steps.take(k), steps[k]->frame);
                &&& id < built_frames(steps).len()
                &&& built_frames(steps)[id as int].key() == steps[k]->frame.key()
            },
    decreases steps.len(),
{
    let frames = built_frames(steps);
    if steps.len() > 0 {
        let rest = steps.drop_last();
        let before = built_frames(rest);
        law_builder_ids_resolve(rest);
        if let BuildStep::Intern { frame } = steps.last() {
            lemma_interned(before, frame, frame.key());
        }
        if frames.len() <= 0x1_0000_0000 {
            assert forall|k: int| 0 <= k < steps.len() && (#[trigger] steps[k]) is Intern implies {
                let id = id_given(steps.take(k), steps[k]->frame);
                &&& id < frames.len()
                &&& frames[id as int].key() == steps[k]->frame.key()
            } by {
                if k < rest.len() {
                    assert(rest[k] == steps[k]);
                    assert(rest.take(k) =~= steps.take(k));
                    let id = id_given(rest.take(k), rest[k]->frame);
                    assert(id < before.len());
                    assert(frames[id as int] == before[id as int]);
                } else {
                    assert(steps.take(k) =~= rest);
                    lemma_find_key(before, steps[k]->frame.key());
                    lemma_find_key(frames, steps[k]->frame.key());
                }
            }
        }
    }
}

// ---------------------------------------------------------------------------
// The profile that a list of records describes
// ---------------------------------------------------------------------------

/// One recorded sample, its frames not yet interned.
#[verifier::ext_equal]
pub struct RecordModel<T> {
    pub pid: u64,
    pub tid: u64,
    pub name: Option<Seq<char>>,
    pub timestamp_ns: T,
    pub weight: u64,
    /// The frames, leaf first.
    pub stack: Seq<FrameModel>,
}

/// The table after the frames of `stack` were interned in order.
pub open spec fn interned_all(frames: Seq<FrameModel>, stack: Seq<FrameModel>) -> Seq<FrameModel>
    decreases stack.len(),
{
    if stack.len() == 0 {
        frames
    } else {
        interned(interned_all(frames, stack.drop_last()), stack.last())
    }
}

/// The ids of the frames of `stack` in the table `frames`.
pub open spec fn ids_in(frames: Seq<FrameModel>, stack: Seq<FrameModel>) -> Seq<FrameId> {
    stack.map_values(|f: FrameModel| id_at(find_key(frames, f.key())))
}

/// The frame table of `records`: their frames by first appearance, one for each
/// identity.
pub open spec fn frames_of<T>(records: Seq<RecordModel<T>>) -> Seq<FrameModel>
    decreases records.len(),
{
    if records.len() == 0 {
        Seq::empty()
    } else {
        interned_all(frames_of(records.drop_last()), records.last().stack)
    }
}

/// The sample that the last of `records` describes.
pub open spec fn last_sample<T>(records: Seq<RecordModel<T>>) -> SampleModel<T> {
    let r = records.last();
    SampleModel {
        timestamp_ns: r.timestamp_ns,
        stack: ids_in(frames_of(records), r.stack),
        weight: r.weight,
    }
}

/// The threads of `records`, by first appearance, without a frame table.
pub open spec fn threads_of<T>(records: Seq<RecordModel<T>>) -> Seq<ThreadModel<T>>
    decreases records.len(),
{
    if records.len() == 0 {
        Seq::empty()
    } else {
        let r = records.last();
        recorded(threads_of(records.drop_last()), r.pid, r.tid, r.name, last_sample(records))
    }
}

/// The profile that `records` describe: a thread for each `(pid, tid)`, with the
/// samples of its records in order, over one table of all frames.
pub open spec fn profile_of<T>(records: Seq<RecordModel<T>>) -> Seq<ThreadModel<T>> {
    with_frames(threads_of(records), frames_of(records))
}

/// Interning keeps identities apart and keeps what was interned where it stands.
pub proof fn lemma_interned(frames: Seq<FrameModel>, frame: FrameModel, key: Seq<char>)
    ensures
        distinct_keys(frames) ==> distinct_keys(interned(frames, frame)),
        find_key(frames, key) < frames.len() ==> find_key(interned(frames, frame), key) == find_key(
            frames,
            key,
        ),
        find_key(interned(frames, frame), frame.key()) == find_key(frames, frame.key()),
        find_key(frames, frame.key()) < interned(frames, frame).len(),
        frames.len() <= interned(frames, frame).len(),
        frames == interned(frames, frame).take(frames.len() as int),
{
    let after = interned(frames, frame);
    lemma_find_key(frames, key);
    lemma_find_key(after, key);
    lemma_find_key(frames, frame.key());
    lemma_find_key(after, frame.key());
    assert(frames =~= after.take(frames.len() as int));
    let k = find_key(frames, key);
    if k < frames.len() {
        assert(after[k] == frames[k]);
        if find_key(after, key) < k {
            assert(after[find_key(after, key)] == frames[find_key(after, key)]);
        }
    }
    let f = find_key(frames, frame.key());
    if f == frames.len() {
        assert(after[f].key() == frame.key());
        if find_key(after, frame.key()) < f {
            assert(after[find_key(after, frame.key())] == frames[find_key(after, frame.key())]);
        }
    }
}

/// The same for the frames of a whole stack, each of which is then in the table.
pub proof fn lemma_interned_all(frames: Seq<FrameModel>, stack: Seq<FrameModel>)
    ensures
        distinct_keys(frames) ==> distinct_keys(interned_all(frames, stack)),
        frames.len() <= interned_all(frames, stack).len(),
        frames == interned_all(frames, stack).take(frames.len() as int),
        forall|key: Seq<char>|
            find_key(frames, key) < frames.len() ==> #[trigger] find_key(
                interned_all(frames, stack),
                key,
            ) == find_key(frames, key),
        forall|i: int|
            0 <= i < stack.len() ==> find_key(
                interned_all(frames, stack),
                (#[trigger] stack[i]).key(),
            ) < interned_all(frames, stack).len(),
    decreases stack.len(),
{
    if stack.len() == 0 {
        assert(frames =~= frames.take(frames.len() as int));
    } else {
        let rest = stack.drop_last();
        let mid = interned_all(frames, rest);
        let after = interned_all(frames, stack);
        lemma_interned_all(frames, rest);
        lemma_interned(mid, stack.last(), stack.last().key());
        assert(frames =~= after.take(frames.len() as int)) by {
            assert(after.take(mid.len() as int).take(frames.len() as int) =~= after.take(
                frames.len() as int,
            ));
        }
        assert forall|key: Seq<char>| find_key(frames, key) < frames.len() implies
            #[trigger] find_key(after, key) == find_key(frames, key) by {
            assert(find_key(mid, key) == find_key(frames, key));
            lemma_interned(mid, stack.last(), key);
        }
        assert forall|i: int| 0 <= i < stack.len() implies find_key(
            after,
            (#[trigger] stack[i]).key(),
        ) < after.len() by {
            if i < rest.len() {
                assert(rest[i] == stack[i]);
                lemma_interned(mid, stack.last(), stack[i].key());
            }
        }
    }
}

/// The frame table of records holds no identity twice.
pub proof fn lemma_frames_of<T>(records: Seq<RecordModel<T>>)
    ensures
        distinct_keys(frames_of(records)),
    decreases records.len(),
{
    if records.len() > 0 {
        lemma_frames_of(records.drop_last());
        lemma_interned_all(frames_of(records.drop_last()), records.last().stack);
    }
}

// ---------------------------------------------------------------------------
// Times seen through a function
// ---------------------------------------------------------------------------

/// A sample with its time seen through `f`.
pub open spec fn sample_at<T, U>(s: SampleModel<T>, f: spec_fn(T) -> U) -> SampleModel<U> {
    SampleModel { timestamp_ns: f(s.timestamp_ns), stack: s.stack, weight: s.weight }
}

/// A thread with its times seen through `f`.
pub open spec fn thread_at<T, U>(t: ThreadModel<T>, f: spec_fn(T) -> U) -> ThreadModel<U> {
    ThreadModel {
        pid: t.pid,
        tid: t.tid,
        name: t.name,
        samples: t.samples.map_values(|s: SampleModel<T>| sample_at(s, f)),
        frames: t.frames,
    }
}

/// Threads with their times seen through `f`.
pub open spec fn threads_at<T, U>(ts: Seq<ThreadModel<T>>, f: spec_fn(T) -> U) -> Seq<
    ThreadModel<U>,
> {
    ts.map_values(|t: ThreadModel<T>| thread_at(t, f))
}

proof fn lemma_find_thread_at<T, U>(
    ts: Seq<ThreadModel<T>>,
    f: spec_fn(T) -> U,
    pid: u64,
    tid: u64,
)
    ensures
        find_thread(threads_at(ts, f), pid, tid) == find_thread(ts, pid, tid),
    decreases ts.len(),
{
    if ts.len() == 0 || (ts[0].pid == pid && ts[0].tid == tid) {
    } else {
        lemma_find_thread_at(ts.skip(1), f, pid, tid);
        assert(threads_at(ts, f).skip(1) =~= threads_at(ts.skip(1), f));
    }
}

/// Looking at the times does not change what the stacks refer to.
pub proof fn lemma_ok_at<T, U>(t: ThreadModel<T>, f: spec_fn(T) -> U)
    ensures
        thread_at(t, f).ok() ==> t.ok(),
{
    let seen = thread_at(t, f);
    let n = t.frames.len() as int;
    if seen.ok() {
        assert forall|i: int, j: int|
            0 <= i < t.samples.len() && 0 <= j < t.samples[i].stack.len() implies (
        #[trigger] t.samples[i].stack[j] as int) < n by {
            assert(seen.samples[i].stack == t.samples[i].stack);
            assert((seen.samples[i].stack[j] as int) < n);
        }
    }
}

/// Recording a sample and looking at the times can be done in either order.
pub proof fn lemma_recorded_at<T, U>(
    ts: Seq<ThreadModel<T>>,
    f: spec_fn(T) -> U,
    pid: u64,
    tid: u64,
    name: Option<Seq<char>>,
    sample: SampleModel<T>,
)
    ensures
        threads_at(recorded(ts, pid, tid, name, sample), f) == recorded(
            threads_at(ts, f),
            pid,
            tid,
            name,
            sample_at(sample, f),
        ),
{
    lemma_find_thread_at(ts, f, pid, tid);
    lemma_find_thread(ts, pid, tid);
    let i = find_thread(ts, pid, tid);
    let a = threads_at(recorded(ts, pid, tid, name, sample), f);
    let b = recorded(threads_at(ts, f), pid, tid, name, sample_at(sample, f));
    assert(a.len() == b.len());
    assert forall|k: int| 0 <= k < a.len() implies a[k] == b[k] by {
        assert(a[k].samples =~= b[k].samples);
        assert(a[k] =~= b[k]);
    }
    assert(a =~= b);
}

// ---------------------------------------------------------------------------
// What holds of frames, threads and profiles
// ---------------------------------------------------------------------------

/// A frame goes by its symbol where it has one, and else by its address: two frames of one
/// symbol are the same function, whatever their addresses and objects.
pub proof fn law_frame_identity(a: Frame, b: Frame)
    ensures
        a.symbol is Some && a.symbol->0@.len() > 0 ==> a@.key() == a.symbol->0@,
        a.symbol is None || a.symbol->0@.len() == 0 ==> a@.key() == a.ip@,
        a.symbol is Some && b.symbol is Some && a.symbol->0@ == b.symbol->0@ && a.symbol->0@.len()
            > 0 ==> a@.key() == b@.key(),
        a@.ip == a.ip@,
        a.dso is Some ==> a@.dso == Some(a.dso->0@),
        a.dso is None ==> a@.dso is None,
{
}

/// Interning a frame adds it, as it is, at the end where no frame has its identity, and
/// changes nothing where one has.
pub proof fn law_intern_adds(frames: Seq<FrameModel>, frame: FrameModel)
    ensures
        (forall|i: int| 0 <= i < frames.len() ==> (#[trigger] frames[i]).key() != frame.key())
            ==> interned(frames, frame) == frames.push(frame) && find_key(frames, frame.key())
            == frames.len(),
        forall|i: int|
            0 <= i < frames.len() && (#[trigger] frames[i]).key() == frame.key() ==> interned(
                frames,
                frame,
            ) == frames,
        forall|i: int|
            0 <= i < frames.len() && (#[trigger] frames[i]).key() == frame.key() && (forall|j: int|
                0 <= j < i ==> (#[trigger] frames[j]).key() != frame.key()) ==> find_key(
                frames,
                frame.key(),
            ) == i,
        forall|i: int| 0 <= i < 0x1_0000_0000 ==> #[trigger] id_at(i) == i,
{
    lemma_find_key(frames, frame.key());
    let k = find_key(frames, frame.key());
    if k < frames.len() {
        assert(frames[k].key() == frame.key());
    }
}

/// The label of a thread ends with its ids in decimal, a slash between them; a name stands
/// before them, and they are then in brackets.
pub proof fn law_label<T>(thread: Thread<T>)
    ensures
        ({
            let ids = crate::text::decimal(thread.pid as nat) + "/"@ + crate::text::decimal(
                thread.tid as nat,
            );
            let named = thread.name is Some && thread.name->0@.len() > 0;
            &&& !named ==> thread@.label() == ids
            &&& named ==> thread@.label() == thread.name->0@ + " ["@ + ids + "]"@
        }),
{
    reveal_strlit("/");
    reveal_strlit(" [");
    reveal_strlit("]");
    let pid = crate::text::decimal(thread.pid as nat);
    let tid = crate::text::decimal(thread.tid as nat);
    let ids = pid + "/"@ + tid;
    assert(ids =~= pid.push('/') + tid);
    if thread.name is Some && thread.name->0@.len() > 0 {
        assert(thread@.label() =~= thread.name->0@ + " ["@ + ids + "]"@);
    } else {
        assert(thread@.label() =~= ids);
    }
}

/// The order of the threads holds every index once, and a thread never stands before one
/// with more samples, nor before one with as many and a smaller index.
pub proof fn law_busiest_first<T>(profile: Profile<T>, order: Seq<usize>, i: int, j: int)
    requires
        busiest_first(order, profile@),
        0 <= i < j < order.len(),
    ensures
        (order[i] as int) < profile.threads@.len(),
        (order[j] as int) < profile.threads@.len(),
        profile.threads@[order[i] as int].samples@.len()
            >= profile.threads@[order[j] as int].samples@.len(),
        profile.threads@[order[i] as int].samples@.len()
            == profile.threads@[order[j] as int].samples@.len() ==> order[i] < order[j],
        forall|k: usize| (k as int) < profile.threads@.len() ==> #[trigger] order.contains(k),
{
    assert(busier(profile@, order[i] as int, order[j] as int));
    assert(profile@[order[i] as int] == profile.threads@[order[i] as int]@);
    assert(profile@[order[j] as int] == profile.threads@[order[j] as int]@);
}

/// A thread that is busier than another has more samples, or as many and a smaller index.
pub proof fn law_busier<T>(profile: Profile<T>, a: int, b: int)
    requires
        0 <= a < profile.threads@.len(),
        0 <= b < profile.threads@.len(),
    ensures
        busier(profile@, a, b) <==> profile.threads@[a].samples@.len()
            > profile.threads@[b].samples@.len() || (profile.threads@[a].samples@.len()
            == profile.threads@[b].samples@.len() && a < b),
{
    assert(profile@[a] == profile.threads@[a]@);
    assert(profile@[b] == profile.threads@[b]@);
}

/// The samples and the events of a profile are those of all its threads together.
pub proof fn law_totals<T>(threads: Seq<ThreadModel<T>>)
    ensures
        sample_total(threads) == threads.fold_left(
            0int,
            |sum: int, t: ThreadModel<T>| sum + t.samples.len(),
        ),
        event_total(threads) == threads.fold_left(
            0int,
            |sum: int, t: ThreadModel<T>| sum + weight_sum(t.samples),
        ),
    decreases threads.len(),
{
    if threads.len() > 0 {
        law_totals(threads.drop_last());
    }
}

/// The depth of a thread is that of its deepest stack.
pub proof fn law_max_depth<T>(thread: Thread<T>)
    ensures
        forall|i: int|
            0 <= i < thread.samples@.len() ==> (#[trigger] thread.samples@[i]).stack@.len()
                <= thread@.max_depth(),
        thread.samples@.len() > 0 ==> exists|i: int|
            0 <= i < thread.samples@.len() && (#[trigger] thread.samples@[i]).stack@.len()
                == thread@.max_depth(),
        thread.samples@.len() == 0 ==> thread@.max_depth() == 0,
{
    let all = thread@.samples;
    lemma_deepest(all);
    assert forall|i: int| 0 <= i < thread.samples@.len() implies (
    #[trigger] thread.samples@[i]).stack@.len() <= thread@.max_depth() by {
        assert(all[i] == thread.samples@[i]@);
        assert(all[i].stack.len() <= deepest(all));
    }
    if thread.samples@.len() > 0 {
        let i = choose|i: int| 0 <= i < all.len() && (#[trigger] all[i]).stack.len() == deepest(all);
        assert(all[i] == thread.samples@[i]@);
        assert(thread.samples@[i].stack@.len() == thread@.max_depth());
    }
}

/// A thread with replaced times has the same samples, in order, each at the time that the
/// function gives for its own.
pub proof fn law_times_are_replaced<T, U, F: Fn(T) -> U>(
    before: Thread<T>,
    after: Thread<U>,
    f: F,
    i: int,
)
    requires
        retimed(before@, after@, f),
    ensures
        after.pid == before.pid,
        after.tid == before.tid,
        after@.name == before@.name,
        after@.frames == before@.frames,
        after.samples@.len() == before.samples@.len(),
        0 <= i < before.samples@.len() ==> {
            &&& after.samples@[i].stack@ == before.samples@[i].stack@
            &&& after.samples@[i].weight == before.samples@[i].weight
            &&& call_ensures(
                f,
                (before.samples@[i].timestamp_ns,),
                after.samples@[i].timestamp_ns,
            )
        },
{
    assert(after@.samples.len() == after.samples@.len());
    if 0 <= i < before.samples@.len() {
        assert(after@.samples[i] == after.samples@[i]@);
        assert(before@.samples[i] == before.samples@[i]@);
    }
}

/// A thread that is in order has stacks of frames of its table only, and the table has no
/// two frames of one identity.
pub proof fn law_ok<T>(thread: Thread<T>)
    requires
        thread@.ok(),
    ensures
        forall|i: int, j: int|
            0 <= i < thread.samples@.len() && 0 <= j < thread.samples@[i].stack@.len() ==> (
            #[trigger] thread.samples@[i].stack@[j] as int) < thread@.frames.len(),
        forall|a: int, b: int|
            0 <= a < b < thread@.frames.len() ==> (#[trigger] thread@.frames[a]).key() != (
            #[trigger] thread@.frames[b]).key(),
{
    assert forall|i: int, j: int|
        0 <= i < thread.samples@.len() && 0 <= j < thread.samples@[i].stack@.len() implies (
    #[trigger] thread.samples@[i].stack@[j] as int) < thread@.frames.len() by {
        assert(thread@.samples[i] == thread.samples@[i]@);
        assert((thread@.samples[i].stack[j] as int) < thread@.frames.len());
    }
}

} // verus!
