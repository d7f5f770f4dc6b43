//! Profiles in the Gecko / Firefox profiler format (the "processed profile"
//! shape).
//!
//! The format stores each thread's data in parallel tables. A sample points at a
//! node of the stack table; each node refers to a frame and to its parent
//! (`prefix`). Walking the `prefix` links from a sample's node to the root yields
//! the call stack leaf first:
//!
//! ```text
//! samples.stack[i] -> stackTable -> frameTable -> funcTable -> stringArray
//! ```

use crate::profile::{
    distinct_keys, find_key, id_at, ids_in, interned, interned_all, lemma_find_key, lemma_interned,
    lemma_interned_all, Frame, FrameId, FrameModel, FrameTable, Profile, share, Sample, SampleModel,
    Thread, ThreadModel,
};
use crate::text::{
    chars_of, decimal, digits, law_decimal_reads_back, law_hexadecimal, parse_u64, parsed_number, positional, push_hex, same_text,
};
use std::sync::Arc;
use vstd::prelude::*;

verus! {

/// A document in the Gecko format, with times of type `T` in the document's unit.
pub struct GeckoProfile<T> {
    pub meta: GeckoMeta,
    pub threads: Vec<GeckoThread<T>>,
}

/// The document's metadata.
pub struct GeckoMeta {
    pub sample_units: Option<SampleUnits>,
}

/// The units of the sample tables.
pub struct SampleUnits {
    /// The unit of time: `ns`, `us`, `ms` or `s`.
    pub time: Option<String>,
}

/// One thread of a document.
pub struct GeckoThread<T> {
    pub name: Option<String>,
    pub pid: u64,
    pub tid: u64,
    pub frame_table: GeckoFrameTable,
    pub func_table: FuncTable,
    pub stack_table: StackTable,
    pub samples: Samples<T>,
    pub string_array: Vec<String>,
}

/// Frames: an address (negative where there is none) and a function each.
pub struct GeckoFrameTable {
    pub address: Vec<i64>,
    pub func: Vec<usize>,
}

/// Functions: a name and a file name (negative where there is none) each, as
/// indices into the string array.
pub struct FuncTable {
    pub name: Vec<usize>,
    pub file_name: Vec<i64>,
}

/// Nodes of call stacks: a frame and the parent node each.
pub struct StackTable {
    pub frame: Vec<usize>,
    pub prefix: Vec<Option<usize>>,
}

/// Samples: a stack node and a time each.
pub struct Samples<T> {
    pub stack: Vec<Option<usize>>,
    pub time: Vec<T>,
}

impl GeckoMeta {
    /// The document's unit of time; milliseconds where it names none.
    pub open spec fn unit(self) -> Seq<char> {
        match self.sample_units {
            Some(units) => match units.time {
                Some(time) => time@,
                None => "ms"@,
            },
            None => "ms"@,
        }
    }

    /// How many nanoseconds the document's unit of time is: milliseconds where the
    /// unit is not known.
    pub open spec fn multiplier(self) -> u64 {
        if self.unit() == "ns"@ {
            1
        } else if self.unit() == "us"@ || self.unit() == "µs"@ {
            1_000
        } else if self.unit() == "s"@ {
            1_000_000_000
        } else {
            1_000_000
        }
    }

    /// Multiplier converting the document's sample times into nanoseconds.
    pub fn time_multiplier(&self) -> (r: u64)
        ensures
            r == self.multiplier(),
    {
        let unit: &str = match &self.sample_units {
            Some(units) => match &units.time {
                Some(time) => time.as_str(),
                None => "ms",
            },
            None => "ms",
        };
        if same_text(unit, "ns") {
            1
        } else if same_text(unit, "us") || same_text(unit, "µs") {
            1_000
        } else if same_text(unit, "s") {
            1_000_000_000
        } else {
            1_000_000
        }
    }
}

impl<T> GeckoThread<T> {
    /// The function of a frame: that of the first where the table has none.
    pub open spec fn func_of(&self, frame_index: int) -> int {
        if 0 <= frame_index < self.frame_table.func@.len() {
            self.frame_table.func@[frame_index] as int
        } else {
            0
        }
    }

    /// The name of a function; empty where the tables have none.
    pub open spec fn name_of(&self, func: int) -> Seq<char> {
        if func < self.func_table.name@.len() && self.func_table.name@[func]
            < self.string_array@.len() {
            self.string_array@[self.func_table.name@[func] as int]@
        } else {
            Seq::empty()
        }
    }

    /// The file of a function, where the tables have one.
    pub open spec fn file_of(&self, func: int) -> Option<Seq<char>> {
        if func < self.func_table.file_name@.len() && 0 <= self.func_table.file_name@[func]
            < self.string_array@.len() {
            Some(self.string_array@[self.func_table.file_name@[func] as int]@)
        } else {
            None
        }
    }

    /// The address of a frame; negative where the table has none.
    pub open spec fn address_of(&self, frame_index: int) -> int {
        if 0 <= frame_index < self.frame_table.address@.len() {
            self.frame_table.address@[frame_index] as int
        } else {
            -1
        }
    }

    /// The frame at an index of the frame table. One without an address is
    /// identified by its name.
    pub open spec fn frame_model(&self, frame_index: int) -> FrameModel {
        let func = self.func_of(frame_index);
        let name = self.name_of(func);
        let address = self.address_of(frame_index);
        FrameModel {
            ip: if address >= 0 {
                seq!['0', 'x'] + digits(address as nat, 16)
            } else {
                name
            },
            symbol: if name.len() > 0 {
                Some(name)
            } else {
                None
            },
            dso: self.file_of(func),
        }
    }

    /// The frames from a stack node to its root, leaf first. A parent that does
    /// not stand before its child ends the walk, so a corrupt table cannot make it
    /// run in circles.
    pub open spec fn stack_from(&self, node: Option<usize>) -> Seq<FrameModel>
        decreases
            match node {
                Some(n) => n + 1,
                None => 0,
            },
    {
        match node {
            Some(n) => if n < self.stack_table.frame@.len() {
                seq![self.frame_model(self.stack_table.frame@[n as int] as int)]
                    + self.stack_from(self.parent_of(n))
            } else {
                Seq::empty()
            },
            None => Seq::empty(),
        }
    }

    /// The parent of a stack node, where it has one that stands before it.
    pub open spec fn parent_of(&self, node: usize) -> Option<usize> {
        if node < self.stack_table.prefix@.len() {
            match self.stack_table.prefix@[node as int] {
                Some(p) => if p < node {
                    Some(p)
                } else {
                    None
                },
                None => None,
            }
        } else {
            None
        }
    }

    /// The stack of the sample at index `i`, empty where it has none.
    pub open spec fn stack_of(&self, i: int) -> Seq<FrameModel> {
        if i < self.samples.stack@.len() {
            self.stack_from(self.samples.stack@[i])
        } else {
            Seq::empty()
        }
    }

    /// The frames of the first `n` samples, in order.
    pub open spec fn frames_upto(&self, n: nat) -> Seq<FrameModel>
        decreases n,
    {
        if n == 0 {
            Seq::empty()
        } else {
            self.frames_upto((n - 1) as nat) + self.stack_of(n - 1)
        }
    }

    /// The thread, its stacks given as ids of the table `frames`.
    pub open spec fn model(&self, frames: Seq<FrameModel>) -> ThreadModel<T> {
        ThreadModel {
            pid: self.pid,
            tid: self.tid,
            name: match self.name {
                Some(name) => if name@.len() > 0 {
                    Some(name@)
                } else {
                    None
                },
                None => None,
            },
            samples: Seq::new(
                self.samples.time@.len(),
                |i: int|
                    SampleModel {
                        timestamp_ns: self.samples.time@[i],
                        stack: ids_in(frames, self.stack_of(i)),
                        weight: 1u64,
                    },
            ),
            frames,
        }
    }
}

/// The frames of the samples of the first `n` threads, in order.
pub open spec fn frames_in<T>(threads: Seq<GeckoThread<T>>, n: nat) -> Seq<FrameModel>
    decreases n,
{
    if n == 0 {
        Seq::empty()
    } else {
        frames_in(threads, (n - 1) as nat) + threads[n - 1].frames_upto(
            threads[n - 1].samples.time@.len(),
        )
    }
}

/// The frame table of `threads`: their frames by first appearance, one for each
/// identity.
pub open spec fn table_of<T>(threads: Seq<GeckoThread<T>>) -> Seq<FrameModel> {
    interned_all(Seq::empty(), frames_in(threads, threads.len()))
}

/// The profile of a document: a thread for each of its threads, even where they
/// share ids, over one table of all frames. Every sample counts as one event.
pub open spec fn gecko_profile<T>(threads: Seq<GeckoThread<T>>) -> Seq<ThreadModel<T>> {
    threads.map_values(|t: GeckoThread<T>| t.model(table_of(threads)))
}

/// Interning two lists is interning the first and then the second.
proof fn lemma_interned_add(table: Seq<FrameModel>, a: Seq<FrameModel>, b: Seq<FrameModel>)
    ensures
        interned_all(table, a + b) == interned_all(interned_all(table, a), b),
    decreases b.len(),
{
    if b.len() == 0 {
        assert(a + b =~= a);
    } else {
        assert((a + b).drop_last() =~= a + b.drop_last());
        lemma_interned_add(table, a, b.drop_last());
    }
}

/// Every frame of `stack` is in the table.
spec fn all_found(table: Seq<FrameModel>, stack: Seq<FrameModel>) -> bool {
    forall|i: int|
        0 <= i < stack.len() ==> find_key(table, (#[trigger] stack[i]).key()) < table.len()
}

/// More interning does not change the ids of what is in the table.
proof fn lemma_ids_stay(table: Seq<FrameModel>, more: Seq<FrameModel>, stack: Seq<FrameModel>)
    requires
        all_found(table, stack),
    ensures
        all_found(interned_all(table, more), stack),
        ids_in(interned_all(table, more), stack) == ids_in(table, stack),
{
    lemma_interned_all(table, more);
    let after = interned_all(table, more);
    assert forall|i: int| 0 <= i < stack.len() implies find_key(after, (#[trigger] stack[i]).key())
        == find_key(table, stack[i].key()) by {
        assert(find_key(table, stack[i].key()) < table.len());
    }
    assert(ids_in(after, stack) =~= ids_in(table, stack));
}

impl<T: Copy> GeckoThread<T> {
    /// The ids memoized so far are those of the frames in the table.
    spec fn memo_ok(&self, memo: Seq<Option<FrameId>>, table: Seq<FrameModel>) -> bool {
        forall|i: int|
            0 <= i < memo.len() && #[trigger] memo[i] is Some ==> {
                &&& find_key(table, self.frame_model(i).key()) < table.len()
                &&& memo[i] == Some(id_at(find_key(table, self.frame_model(i).key())))
            }
    }

    /// Interning keeps the memoized ids right.
    proof fn lemma_memo_stays(
        &self,
        memo: Seq<Option<FrameId>>,
        table: Seq<FrameModel>,
        frame: FrameModel,
    )
        requires
            self.memo_ok(memo, table),
        ensures
            self.memo_ok(memo, interned(table, frame)),
    {
        assert forall|i: int| 0 <= i < memo.len() && #[trigger] memo[i] is Some implies {
            &&& find_key(interned(table, frame), self.frame_model(i).key()) < interned(
                table,
                frame,
            ).len()
            &&& memo[i] == Some(
                id_at(find_key(interned(table, frame), self.frame_model(i).key())),
            )
        } by {
            lemma_interned(table, frame, self.frame_model(i).key());
        }
    }

    /// Builds the frame at an index of the frame table.
    pub fn frame_at(&self, frame_index: usize) -> (r: Frame)
        ensures
            r@ == self.frame_model(frame_index as int),
    {
        let func_index: usize = if frame_index < self.frame_table.func.len() {
            self.frame_table.func[frame_index]
        } else {
            0
        };
        let name: String = if func_index < self.func_table.name.len()
            && self.func_table.name[func_index] < self.string_array.len() {
            self.string_array[self.func_table.name[func_index]].clone()
        } else {
            String::new()
        };
        let address: i64 = if frame_index < self.frame_table.address.len() {
            self.frame_table.address[frame_index]
        } else {
            -1
        };
        let dso: Option<String> = if func_index < self.func_table.file_name.len()
            && self.func_table.file_name[func_index] >= 0 && (
        self.func_table.file_name[func_index] as u64) < self.string_array.len() as u64 {
            Some(self.string_array[self.func_table.file_name[func_index] as usize].clone())
        } else {
            None
        };
        let ip: String = if address >= 0 {
            let mut text = String::new();
            text.push('0');
            text.push('x');
            push_hex(&mut text, address as u64);
            assert(text@ =~= seq!['0', 'x'] + digits(address as nat, 16));
            text
        } else {
            name.clone()
        };
        
        let symbol = if name.as_str().is_empty() {
            None
        } else {
            Some(name)
        };
        Frame { ip, symbol, dso }
    }

    /// Walks the `prefix` links from `start` to the root, producing a leaf-first
    /// stack of interned ids. `memo` holds the ids of this thread's frames that
    /// were interned before.
    fn build_stack(
        &self,
        start: Option<usize>,
        frames: &mut FrameTable,
        memo: &mut Vec<Option<FrameId>>,
    ) -> (r: Vec<FrameId>)
        requires
            old(frames).wf(),
            self.memo_ok(old(memo)@, old(frames)@),
        ensures
            final(frames).wf(),
            final(frames)@ == interned_all(old(frames)@, self.stack_from(start)),
            self.memo_ok(final(memo)@, final(frames)@),
            final(memo)@.len() == old(memo)@.len(),
            r@ == ids_in(final(frames)@, self.stack_from(start)),
            all_found(final(frames)@, self.stack_from(start)),
    {
        let ghost whole = self.stack_from(start);
        let ghost table = frames@;
        let ghost mut walked: Seq<FrameModel> = Seq::empty();
        let mut stack: Vec<FrameId> = Vec::new();
        let mut index: Option<usize> = start;
        assert(stack@ =~= ids_in(frames@, walked));
        assert(whole =~= walked + self.stack_from(index));
        loop
            invariant
                whole == self.stack_from(start),
                whole == walked + self.stack_from(index),
                frames.wf(),
                frames@ == interned_all(table, walked),
                self.memo_ok(memo@, frames@),
                memo@.len() == old(memo)@.len(),
                stack@ == ids_in(frames@, walked),
                all_found(frames@, walked),
            ensures
                whole == walked,
            decreases
                match index {
                    Some(n) => n + 1,
                    None => 0,
                },
        {
            let node = match index {
                Some(node) => node,
                None => {
                    assert(whole =~= walked);
                    break;
                },
            };
            if node >= self.stack_table.frame.len() {
                assert(whole =~= walked);
                break;
            }
            let frame_index = self.stack_table.frame[node];
            let ghost f = self.frame_model(frame_index as int);
            let ghost before = frames@;
            let known: Option<FrameId> = if frame_index < memo.len() {
                memo[frame_index]
            } else {
                None
            };
            let id = match known {
                Some(id) => {
                    assert(memo@[frame_index as int] is Some);
                    id
                },
                None => {
                    let id = frames.intern(self.frame_at(frame_index));
                    proof {
                        self.lemma_memo_stays(memo@, before, f);
                        lemma_interned(before, f, f.key());
                    }
                    if frame_index < memo.len() {
                        memo.set(frame_index, Some(id));
                    }
                    id
                },
            };
            stack.push(id);
            proof {
                let longer = walked.push(f);
                assert(longer.drop_last() =~= walked);
                assert(frames@ == interned(before, f));
                lemma_interned(before, f, f.key());
                assert(interned_all(before, seq![f]) == interned(before, f)) by {
                    reveal_with_fuel(interned_all, 2);
                    assert(seq![f].drop_last() =~= Seq::<FrameModel>::empty());
                }
                lemma_ids_stay(before, seq![f], walked);
                assert(stack@ =~= ids_in(frames@, longer));
                assert forall|i: int| 0 <= i < longer.len() implies find_key(
                    frames@,
                    (#[trigger] longer[i]).key(),
                ) < frames@.len() by {
                    if i < walked.len() {
                        assert(longer[i] == walked[i]);
                    }
                }
                assert(whole =~= longer + self.stack_from(self.parent_of(node)));
                walked = longer;
            }
            index = if node < self.stack_table.prefix.len() {
                match self.stack_table.prefix[node] {
                    Some(prefix) => {
                        if prefix < node {
                            Some(prefix)
                        } else {
                            None
                        }
                    },
                    None => None,
                }
            } else {
                None
            };
        }
        stack
    }

    /// Converts the thread, interning its frames.
    fn to_thread(&self, frames: &mut FrameTable) -> (r: Thread<T>)
        requires
            old(frames).wf(),
        ensures
            final(frames).wf(),
            final(frames)@ == interned_all(
                old(frames)@,
                self.frames_upto(self.samples.time@.len()),
            ),
            r@.pid == self.pid,
            r@.tid == self.tid,
            r@.name == self.model(final(frames)@).name,
            r@.samples == self.model(final(frames)@).samples,
            forall|i: int|
                0 <= i < self.samples.time@.len() ==> all_found(
                    final(frames)@,
                    #[trigger] self.stack_of(i),
                ),
    {
        let ghost table = frames@;
        let mut memo: Vec<Option<FrameId>> = Vec::new();
        let count = self.frame_table.func.len();
        for i in 0..count
            invariant
                memo@.len() == i,
                forall|k: int| 0 <= k < i ==> #[trigger] memo@[k] is None,
        {
            memo.push(None);
        }
        let n = self.samples.time.len();
        let mut samples: Vec<Sample<T>> = Vec::new();
        for i in 0..n
            invariant
                n == self.samples.time@.len(),
                samples@.len() == i,
                frames.wf(),
                frames@ == interned_all(table, self.frames_upto(i as nat)),
                self.memo_ok(memo@, frames@),
                forall|k: int| 0 <= k < i ==> all_found(frames@, #[trigger] self.stack_of(k)),
                forall|k: int|
                    0 <= k < i ==> (#[trigger] samples@[k])@ == (SampleModel {
                        timestamp_ns: self.samples.time@[k],
                        stack: ids_in(frames@, self.stack_of(k)),
                        weight: 1u64,
                    }),
        {
            let ghost before = frames@;
            let ghost made = samples@;
            let stack_index: Option<usize> = if i < self.samples.stack.len() {
                self.samples.stack[i]
            } else {
                None
            };
            let stack = self.build_stack(stack_index, frames, &mut memo);
            proof {
                let s = self.stack_of(i as int);
                assert(s =~= self.stack_from(stack_index));
                lemma_interned_add(table, self.frames_upto(i as nat), s);
                assert(frames@ == interned_all(table, self.frames_upto((i + 1) as nat)));
                assert forall|k: int| 0 <= k < i implies all_found(
                    frames@,
                    #[trigger] self.stack_of(k),
                ) && ids_in(frames@, self.stack_of(k)) == ids_in(before, self.stack_of(k)) by {
                    lemma_ids_stay(before, s, self.stack_of(k));
                }
            }
            samples.push(Sample { timestamp_ns: self.samples.time[i], stack, weight: 1 });
            proof {
                assert forall|k: int| 0 <= k < i + 1 implies (#[trigger] samples@[k])@ == (
                SampleModel {
                    timestamp_ns: self.samples.time@[k],
                    stack: ids_in(frames@, self.stack_of(k)),
                    weight: 1u64,
                }) by {
                    if k < i {
                        assert(samples@[k] == made[k]);
                        assert(all_found(frames@, self.stack_of(k)));
                    }
                }
            }
        }
        let name: Option<String> = match &self.name {
            Some(name) => {
                if name.as_str().is_empty() {
                    None
                } else {
                    Some(name.clone())
                }
            },
            None => None,
        };
        let r = Thread {
            pid: self.pid,
            tid: self.tid,
            name,
            samples,
            frames: Arc::new(FrameTable::default()),
        };
        assert(r@.samples =~= self.model(frames@).samples);
        r
    }
}

impl<T: Copy> GeckoProfile<T> {
    /// Converts the document. The samples' times stay in the document's unit.
    pub fn into_profile(self) -> (r: Profile<T>)
        ensures
            r@ == gecko_profile(self.threads@),
            forall|t: int| 0 <= t < r@.len() ==> (#[trigger] r@[t]).ok(),
    {
        proof {
            assert forall|t: int| 0 <= t < gecko_profile(self.threads@).len() implies (
            #[trigger] gecko_profile(self.threads@)[t]).ok() by {
                law_gecko_threads_are_ok(self.threads@, t);
            }
        }
        let n = self.threads.len();
        let ghost docs = self.threads@;
        let mut table = FrameTable::default();
        let mut threads: Vec<Thread<T>> = Vec::new();
        for i in 0..n
            invariant
                n == self.threads@.len(),
                docs == self.threads@,
                table.wf(),
                table@ == interned_all(Seq::empty(), frames_in(docs, i as nat)),
                threads@.len() == i,
                forall|k: int, j: int|
                    0 <= k < i && 0 <= j < docs[k].samples.time@.len() ==> all_found(
                        table@,
                        #[trigger] docs[k].stack_of(j),
                    ),
                forall|k: int|
                    0 <= k < i ==> {
                        &&& (#[trigger] threads@[k])@.pid == docs[k].pid
                        &&& threads@[k]@.tid == docs[k].tid
                        &&& threads@[k]@.name == docs[k].model(table@).name
                        &&& threads@[k]@.samples == docs[k].model(table@).samples
                    },
        {
            let ghost before = table@;
            let ghost made = threads@;
            let thread = self.threads[i].to_thread(&mut table);
            proof {
                let more = docs[i as int].frames_upto(docs[i as int].samples.time@.len());
                lemma_interned_add(Seq::empty(), frames_in(docs, i as nat), more);
                assert forall|k: int, j: int|
                    0 <= k < i && 0 <= j < docs[k].samples.time@.len() implies all_found(
                    table@,
                    #[trigger] docs[k].stack_of(j),
                ) && ids_in(table@, docs[k].stack_of(j)) == ids_in(before, docs[k].stack_of(j)) by {
                    lemma_ids_stay(before, more, docs[k].stack_of(j));
                }
                assert forall|k: int| 0 <= k < i implies #[trigger] docs[k].model(table@).samples
                    == docs[k].model(before).samples by {
                    assert(docs[k].model(table@).samples =~= docs[k].model(before).samples) by {
                        assert forall|j: int| 0 <= j < docs[k].samples.time@.len() implies
                            docs[k].model(table@).samples[j] == docs[k].model(before).samples[j] by {
                            assert(all_found(table@, docs[k].stack_of(j)));
                        }
                    }
                }
            }
            threads.push(thread);
            proof {
                assert forall|k: int| 0 <= k < i + 1 implies {
                    &&& (#[trigger] threads@[k])@.pid == docs[k].pid
                    &&& threads@[k]@.tid == docs[k].tid
                    &&& threads@[k]@.name == docs[k].model(table@).name
                    &&& threads@[k]@.samples == docs[k].model(table@).samples
                } by {
                    if k < i {
                        assert(threads@[k] == made[k]);
                        assert(docs[k].model(table@).samples == docs[k].model(before).samples);
                    }
                }
            }
        }
        let ghost all = table@;
        assert(all == table_of(docs));
        let shared = Arc::new(table);
        let mut out: Vec<Thread<T>> = Vec::new();
        for thread in it: threads
            invariant
                it.seq() == threads@,
                shared@ == all,
                threads@.len() == docs.len(),
                out@.len() == it.index(),
                forall|k: int|
                    0 <= k < docs.len() ==> {
                        &&& (#[trigger] threads@[k])@.pid == docs[k].pid
                        &&& threads@[k]@.tid == docs[k].tid
                        &&& threads@[k]@.name == docs[k].model(all).name
                        &&& threads@[k]@.samples == docs[k].model(all).samples
                    },
                forall|k: int|
                    0 <= k < it.index() ==> (#[trigger] out@[k])@ == docs[k].model(all),
        {
            let ghost k = it.index() as int;
            assert(thread == threads@[k]);
            let whole = Thread {
                pid: thread.pid,
                tid: thread.tid,
                name: thread.name,
                samples: thread.samples,
                frames: share(&shared),
            };
            assert(whole@ =~= docs[k].model(all));
            out.push(whole);
        }
        let r = Profile { threads: out };
        assert(r@ =~= gecko_profile(docs));
        r
    }
}

// ---------------------------------------------------------------------------
// Process and thread ids
// ---------------------------------------------------------------------------

/// An id as a document writes it: documents are inconsistent about it.
pub enum JsonId {
    /// A number, where it is an unsigned one of 64 bits.
    Number(Option<u64>),
    /// A string.
    Text(String),
    /// `null`.
    Null,
    /// Anything else.
    Other,
}

/// Why an id was refused.
#[derive(Debug, Clone, Copy, PartialEq, Eq, Structural)]
pub enum IdError {
    /// A number that is no `u64`.
    NotUnsigned,
    /// A text that writes no `u64`.
    NotANumber,
    /// Neither a number, a text nor `null`.
    UnexpectedType,
}

/// What an id is read as.
pub open spec fn id_read(id: JsonId) -> Result<u64, IdError> {
    match id {
        JsonId::Number(Some(n)) => Ok(n),
        JsonId::Number(None) => Err(IdError::NotUnsigned),
        JsonId::Text(s) => match parsed_number(s@, u64::MAX as nat) {
            Some(n) => Ok(n as u64),
            None => Err(IdError::NotANumber),
        },
        JsonId::Null => Ok(0),
        JsonId::Other => Err(IdError::UnexpectedType),
    }
}

/// Accepts an id written as a number or as a text; `null` means 0.
pub fn flexible_id(id: &JsonId) -> (r: Result<u64, IdError>)
    ensures
        r == id_read(*id),
        r == (match *id {
            JsonId::Number(Some(n)) => Ok::<u64, IdError>(n),
            JsonId::Number(None) => Err(IdError::NotUnsigned),
            JsonId::Text(s) => match parsed_number(s@, u64::MAX as nat) {
                Some(n) => Ok(n as u64),
                None => Err(IdError::NotANumber),
            },
            JsonId::Null => Ok(0),
            JsonId::Other => Err(IdError::UnexpectedType),
        }),
{
    match id {
        JsonId::Number(Some(n)) => Ok(*n),
        JsonId::Number(None) => Err(IdError::NotUnsigned),
        JsonId::Text(s) => match parse_u64(chars_of(s.as_str()).as_slice()) {
            Some(n) => Ok(n),
            None => Err(IdError::NotANumber),
        },
        JsonId::Null => Ok(0),
        JsonId::Other => Err(IdError::UnexpectedType),
    }
}

// ---------------------------------------------------------------------------
// Laws of the format
// ---------------------------------------------------------------------------

/// Every frame of a thread's samples is in the list of its frames.
proof fn lemma_in_frames_upto<T>(thread: &GeckoThread<T>, n: nat, i: int, j: int) -> (k: int)
    requires
        0 <= i < n,
        0 <= j < thread.stack_of(i).len(),
    ensures
        0 <= k < thread.frames_upto(n).len(),
        thread.frames_upto(n)[k] == thread.stack_of(i)[j],
    decreases n,
{
    let before = thread.frames_upto((n - 1) as nat);
    if i == n - 1 {
        before.len() + j
    } else {
        lemma_in_frames_upto(thread, (n - 1) as nat, i, j)
    }
}

/// Every frame of the samples of the first `n` threads is in the list of frames.
proof fn lemma_in_frames<T>(threads: Seq<GeckoThread<T>>, n: nat, t: int, i: int, j: int) -> (k:
    int)
    requires
        0 <= t < n <= threads.len(),
        0 <= i < threads[t].samples.time@.len(),
        0 <= j < threads[t].stack_of(i).len(),
    ensures
        0 <= k < frames_in(threads, n).len(),
        frames_in(threads, n)[k] == threads[t].stack_of(i)[j],
    decreases n,
{
    let before = frames_in(threads, (n - 1) as nat);
    if t == n - 1 {
        before.len() + lemma_in_frames_upto(&threads[t], threads[t].samples.time@.len(), i, j)
    } else {
        lemma_in_frames(threads, (n - 1) as nat, t, i, j)
    }
}

/// The stacks of a document's threads refer to frames of the profile's table, and
/// every sample counts as one event.
pub proof fn law_gecko_threads_are_ok<T>(threads: Seq<GeckoThread<T>>, t: int)
    requires
        0 <= t < threads.len(),
    ensures
        gecko_profile(threads)[t].ok(),
        forall|i: int|
            0 <= i < gecko_profile(threads)[t].samples.len() ==> (#[trigger] gecko_profile(
                threads,
            )[t].samples[i]).weight == 1,
{
    let table = table_of(threads);
    let all = frames_in(threads, threads.len());
    lemma_interned_all(Seq::empty(), all);
    assert(distinct_keys(Seq::<FrameModel>::empty()));
    let thread = gecko_profile(threads)[t];
    assert forall|i: int, j: int|
        0 <= i < thread.samples.len() && 0 <= j < thread.samples[i].stack.len() implies (
    #[trigger] thread.samples[i].stack[j] as int) < table.len() by {
        let f = threads[t].stack_of(i)[j];
        let k = lemma_in_frames(threads, threads.len(), t, i, j);
        assert(all[k] == f);
        let at = find_key(table, f.key());
        lemma_find_key(table, f.key());
        assert(thread.samples[i].stack[j] == id_at(at));
        assert(at % 0x1_0000_0000 <= at) by (nonlinear_arith)
            requires
                at >= 0,
        ;
    }
}

/// Every sample of a document is a sample of its thread's, in order, with its time
/// and a stack whose frames have the identities of the document's. (The ids of a
/// table with more frames than there are ids are shared.)
pub proof fn law_gecko_samples_are_kept<T>(threads: Seq<GeckoThread<T>>, t: int, i: int)
    requires
        0 <= t < threads.len(),
        0 <= i < threads[t].samples.time@.len(),
        table_of(threads).len() <= 0x1_0000_0000,
    ensures
        gecko_profile(threads).len() == threads.len(),
        ({
            let thread = gecko_profile(threads)[t];
            &&& thread.pid == threads[t].pid
            &&& thread.tid == threads[t].tid
            &&& thread.samples.len() == threads[t].samples.time@.len()
            &&& thread.samples[i].timestamp_ns == threads[t].samples.time@[i]
            &&& thread.samples[i].stack.len() == threads[t].stack_of(i).len()
            &&& forall|j: int|
                0 <= j < threads[t].stack_of(i).len() ==> thread.key(
                    #[trigger] thread.samples[i].stack[j],
                ) == threads[t].stack_of(i)[j].key()
        }),
{
    let table = table_of(threads);
    let all = frames_in(threads, threads.len());
    lemma_interned_all(Seq::empty(), all);
    let thread = gecko_profile(threads)[t];
    assert forall|j: int| 0 <= j < threads[t].stack_of(i).len() implies thread.key(
        #[trigger] thread.samples[i].stack[j],
    ) == threads[t].stack_of(i)[j].key() by {
        let f = threads[t].stack_of(i)[j];
        let k = lemma_in_frames(threads, threads.len(), t, i, j);
        assert(all[k] == f);
        let at = find_key(table, f.key());
        lemma_find_key(table, f.key());
        assert(thread.samples[i].stack[j] == id_at(at));
        assert(at % 0x1_0000_0000 == at);
    }
}

/// The nodes lead from the first of them to a root: each has a frame, its parent is the
/// next one, which stands before it, and the last has no parent.
pub open spec fn leads_to_root<T>(thread: GeckoThread<T>, nodes: Seq<usize>) -> bool {
    &&& nodes.len() > 0
    &&& forall|k: int|
        0 <= k < nodes.len() ==> (#[trigger] nodes[k] as int) < thread.stack_table.frame@.len()
            && (nodes[k] as int) < thread.stack_table.prefix@.len()
    &&& forall|k: int|
        0 <= k < nodes.len() - 1 ==> thread.stack_table.prefix@[#[trigger] nodes[k] as int]
            == Some(nodes[k + 1]) && nodes[k + 1] < nodes[k]
    &&& thread.stack_table.prefix@[nodes.last() as int] is None
}

/// The stack of a node is its own frame and then those of all nodes on the way to the
/// root, in that order, whatever functions they are of.
pub proof fn law_stack_follows_parents<T>(thread: GeckoThread<T>, nodes: Seq<usize>)
    requires
        leads_to_root(thread, nodes),
    ensures
        thread.stack_from(Some(nodes[0])).len() == nodes.len(),
        forall|k: int|
            0 <= k < nodes.len() ==> #[trigger] thread.stack_from(Some(nodes[0]))[k]
                == thread.frame_model(thread.stack_table.frame@[nodes[k] as int] as int),
        thread.stack_from(None).len() == 0,
    decreases nodes.len(),
{
    let n = nodes[0];
    let stack = thread.stack_from(Some(n));
    if nodes.len() == 1 {
        assert(nodes.last() == n);
        assert(thread.stack_from(thread.parent_of(n)).len() == 0);
    } else {
        let rest = nodes.skip(1);
        assert(rest[0] == nodes[1]);
        assert(rest.last() == nodes.last());
        assert forall|k: int| 0 <= k < rest.len() implies (#[trigger] rest[k] as int)
            < thread.stack_table.frame@.len() && (rest[k] as int)
            < thread.stack_table.prefix@.len() by {
            assert(rest[k] == nodes[k + 1]);
        }
        assert forall|k: int| 0 <= k < rest.len() - 1 implies thread.stack_table.prefix@[
        #[trigger] rest[k] as int] == Some(rest[k + 1]) && rest[k + 1] < rest[k] by {
            assert(rest[k] == nodes[k + 1]);
        }
        law_stack_follows_parents(thread, rest);
        assert(thread.stack_table.prefix@[nodes[0] as int] == Some(nodes[1]));
        assert(thread.parent_of(n) == Some(nodes[1]));
        let above = thread.stack_from(Some(nodes[1]));
        assert(stack =~= seq![thread.frame_model(thread.stack_table.frame@[n as int] as int)]
            + above);
        assert forall|k: int| 0 <= k < nodes.len() implies #[trigger] stack[k]
            == thread.frame_model(thread.stack_table.frame@[nodes[k] as int] as int) by {
            if k > 0 {
                assert(stack[k] == above[k - 1]);
                assert(rest[k - 1] == nodes[k]);
            }
        }
    }
}

/// A node whose parent stands before it has its own frame and then the parent's whole
/// stack; one whose parent does not, or that has none, has its own frame only; and a node
/// that the table does not have has no stack.
pub proof fn law_stack_of_node<T>(thread: GeckoThread<T>, n: usize)
    ensures
        n >= thread.stack_table.frame@.len() ==> thread.stack_from(Some(n)).len() == 0,
        n < thread.stack_table.frame@.len() ==> {
            let own = thread.frame_model(thread.stack_table.frame@[n as int] as int);
            let listed = n < thread.stack_table.prefix@.len();
            let prefix = thread.stack_table.prefix@[n as int];
            &&& listed && prefix is Some && prefix->0 < n ==> thread.stack_from(Some(n)) == seq![own]
                + thread.stack_from(prefix)
            &&& !listed || prefix is None || prefix->0 >= n ==> thread.stack_from(Some(n)) == seq![
                own,
            ]
        },
{
    if n < thread.stack_table.frame@.len() {
        let own = thread.frame_model(thread.stack_table.frame@[n as int] as int);
        assert(thread.stack_from(None).len() == 0);
        assert(seq![own] + thread.stack_from(None) =~= seq![own]);
    }
}

/// A frame has the name and the file of its function, as the string array spells them,
/// and its address in hexadecimal; one without an address goes by its name.
pub proof fn law_gecko_frame<T>(thread: GeckoThread<T>, f: int)
    requires
        0 <= f < thread.frame_table.func@.len(),
        0 <= f < thread.frame_table.address@.len(),
        (thread.frame_table.func@[f] as int) < thread.func_table.name@.len(),
        (thread.frame_table.func@[f] as int) < thread.func_table.file_name@.len(),
        (thread.func_table.name@[thread.frame_table.func@[f] as int] as int)
            < thread.string_array@.len(),
        (thread.func_table.file_name@[thread.frame_table.func@[f] as int] as int)
            < thread.string_array@.len(),
    ensures
        ({
            let func = thread.frame_table.func@[f] as int;
            let name = thread.string_array@[thread.func_table.name@[func] as int]@;
            let file = thread.func_table.file_name@[func];
            let address = thread.frame_table.address@[f];
            let frame = thread.frame_model(f);
            &&& name.len() > 0 ==> frame.symbol == Some(name) && frame.key() == name
            &&& name.len() == 0 ==> frame.symbol is None && frame.key() == frame.ip
            &&& file >= 0 ==> frame.dso == Some(thread.string_array@[file as int]@)
            &&& file < 0 ==> frame.dso is None
            &&& address < 0 ==> frame.ip == name
            &&& address >= 0 ==> {
                &&& frame.ip.len() > 2
                &&& frame.ip.take(2) == seq!['0', 'x']
                &&& positional(frame.ip.skip(2), 16) == address
            }
        }),
{
    let address = thread.frame_table.address@[f];
    if address >= 0 {
        let text = digits(address as nat, 16);
        law_hexadecimal(address as nat);
        assert((seq!['0', 'x'] + text).skip(2) =~= text);
        assert((seq!['0', 'x'] + text).take(2) =~= seq!['0', 'x']);
    }
}

/// What a document's table does not say is left open: a frame whose function has no name
/// has no symbol, and one without an entry for its address or its file has none.
pub proof fn law_gecko_missing<T>(thread: GeckoThread<T>, f: int)
    requires
        0 <= f < thread.frame_table.func@.len(),
    ensures
        ({
            let func = thread.frame_table.func@[f] as int;
            let frame = thread.frame_model(f);
            &&& func >= thread.func_table.name@.len() ==> frame.symbol is None
            &&& func < thread.func_table.name@.len() && thread.func_table.name@[func]
                >= thread.string_array@.len() ==> frame.symbol is None
            &&& func >= thread.func_table.file_name@.len() ==> frame.dso is None
            &&& func < thread.func_table.file_name@.len() && thread.func_table.file_name@[func]
                >= thread.string_array@.len() ==> frame.dso is None
            &&& f >= thread.frame_table.address@.len() && frame.symbol is Some ==> frame.ip
                == frame.symbol->0
        }),
{
}

/// A sample that stands at a node has the whole stack of the node: one frame for each
/// node on the way to the root, leaf first, under the names that the string array gives.
pub proof fn law_gecko_walks_to_the_root<T>(
    threads: Seq<GeckoThread<T>>,
    t: int,
    i: int,
    nodes: Seq<usize>,
)
    requires
        0 <= t < threads.len(),
        0 <= i < threads[t].samples.time@.len(),
        i < threads[t].samples.stack@.len(),
        leads_to_root(threads[t], nodes),
        threads[t].samples.stack@[i] == Some(nodes[0]),
        table_of(threads).len() <= 0x1_0000_0000,
    ensures
        ({
            let thread = gecko_profile(threads)[t];
            let stack = thread.samples[i].stack;
            &&& stack.len() == nodes.len()
            &&& forall|k: int|
                0 <= k < nodes.len() ==> thread.frames[#[trigger] stack[k] as int].key()
                    == threads[t].frame_model(
                    threads[t].stack_table.frame@[nodes[k] as int] as int,
                ).key()
        }),
{
    law_stack_follows_parents(threads[t], nodes);
    law_gecko_samples_are_kept(threads, t, i);
    let thread = gecko_profile(threads)[t];
    let stack = thread.samples[i].stack;
    assert forall|k: int| 0 <= k < nodes.len() implies thread.frames[
    #[trigger] stack[k] as int].key() == threads[t].frame_model(
        threads[t].stack_table.frame@[nodes[k] as int] as int,
    ).key() by {
        assert(thread.key(stack[k]) == threads[t].stack_of(i)[k].key());
        assert(threads[t].stack_of(i)[k] == threads[t].stack_from(Some(nodes[0]))[k]);
    }
}

/// A sample without a node has no frames, and a thread goes by its name where that is not
/// empty.
pub proof fn law_gecko_threads<T>(threads: Seq<GeckoThread<T>>, t: int, i: int)
    requires
        0 <= t < threads.len(),
    ensures
        ({
            let thread = gecko_profile(threads)[t];
            &&& 0 <= i < threads[t].samples.time@.len() && (i >= threads[t].samples.stack@.len()
                || threads[t].samples.stack@[i] is None) ==> thread.samples[i].stack.len() == 0
            &&& threads[t].name is None || threads[t].name->0@.len() == 0 ==> thread.name is None
            &&& threads[t].name is Some && threads[t].name->0@.len() > 0 ==> thread.name == Some(
                threads[t].name->0@,
            )
        }),
{
}

/// The units of time are a thousand, a million and a thousand million nanoseconds, and
/// milliseconds where the document names none or one that is not known.
pub proof fn law_units(meta: GeckoMeta, units: SampleUnits, time: String)
    ensures
        meta.sample_units is None ==> meta.multiplier() == 1_000_000,
        meta.sample_units == Some(units) && units.time is None ==> meta.multiplier() == 1_000_000,
        meta.sample_units == Some(units) && units.time == Some(time) ==> {
            &&& time@ == "ns"@ <==> meta.multiplier() == 1
            &&& time@ == "us"@ || time@ == "µs"@ <==> meta.multiplier() == 1_000
            &&& time@ == "s"@ <==> meta.multiplier() == 1_000_000_000
            &&& time@ != "ns"@ && time@ != "us"@ && time@ != "µs"@ && time@ != "s"@
                <==> meta.multiplier() == 1_000_000
        },
{
    reveal_strlit("ns");
    reveal_strlit("us");
    reveal_strlit("µs");
    reveal_strlit("ms");
    reveal_strlit("s");
    assert("ms"@.len() == 2 && "ms"@[0] == 'm');
    assert("ns"@.len() == 2 && "ns"@[0] == 'n');
    assert("us"@.len() == 2 && "us"@[0] == 'u');
    assert("µs"@.len() == 2 && "µs"@[0] == 'µ');
    assert("s"@.len() == 1);
}

/// A frame that the frame table does not have is that of the first function.
pub proof fn law_gecko_frame_beyond<T>(thread: GeckoThread<T>, f: int)
    requires
        f >= thread.frame_table.func@.len(),
        thread.func_table.name@.len() > 0,
        (thread.func_table.name@[0] as int) < thread.string_array@.len(),
        thread.string_array@[thread.func_table.name@[0] as int]@.len() > 0,
    ensures
        thread.frame_model(f).symbol == Some(
            thread.string_array@[thread.func_table.name@[0] as int]@,
        ),
{
}

/// An id may be written as a number or as the text of one; `null` is zero, and everything
/// else is refused.
pub proof fn law_ids_are_read(id: JsonId, n: u64, text: String)
    ensures
        id == JsonId::Number(Some(n)) ==> id_read(id) == Ok::<u64, IdError>(n),
        id == JsonId::Number(None) ==> id_read(id) == Err::<u64, _>(IdError::NotUnsigned),
        id == JsonId::Text(text) && text@ == decimal(n as nat) ==> id_read(id) == Ok::<u64, IdError>(
            n,
        ),
        id == JsonId::Text(text) && parsed_number(text@, u64::MAX as nat) is None ==> id_read(id)
            == Err::<u64, _>(IdError::NotANumber),
        id is Null ==> id_read(id) == Ok::<u64, IdError>(0),
        id is Other ==> id_read(id) == Err::<u64, _>(IdError::UnexpectedType),
{
    law_decimal_reads_back(n as nat, u64::MAX as nat);
}

} // verus!
