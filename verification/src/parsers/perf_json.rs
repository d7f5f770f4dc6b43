//! Profiles from `perf data convert --to-json` output.
//!
//! A document is handed over as a [`PerfData`], which holds the fields that the
//! profile needs; [`build`] turns it into a profile.

use crate::profile::{
    frames_of, ids_in, interned_all, last_sample, lemma_interned, lemma_interned_all, opt_text,
    profile_of, threads_of, Frame, FrameId, FrameModel, Profile, RecordModel, Sample, ThreadBuilder,
};
use crate::recording::{count_of, law_records_are_kept, law_threads_are_ok};
use vstd::prelude::*;

verus! {

/// A perf JSON document.
pub struct PerfData<T> {
    pub samples: Vec<PerfSample<T>>,
}

/// One sample of a document.
pub struct PerfSample<T> {
    /// When the sample was taken.
    pub timestamp: T,
    pub pid: u64,
    pub tid: u64,
    /// The command's name.
    pub comm: Option<String>,
    /// The frames, leaf first.
    pub callchain: Vec<PerfFrame>,
}

/// One frame of a sample.
pub struct PerfFrame {
    pub ip: String,
    pub symbol: Option<String>,
    pub dso: Option<String>,
}

impl View for PerfFrame {
    type V = FrameModel;

    open spec fn view(&self) -> FrameModel {
        FrameModel { ip: self.ip@, symbol: opt_text(self.symbol), dso: opt_text(self.dso) }
    }
}

impl<T> View for PerfSample<T> {
    type V = RecordModel<T>;

    /// A sample without a period stands for one event.
    open spec fn view(&self) -> RecordModel<T> {
        RecordModel {
            pid: self.pid,
            tid: self.tid,
            name: opt_text(self.comm),
            timestamp_ns: self.timestamp,
            weight: 1,
            stack: self.callchain@.map_values(|f: PerfFrame| f@),
        }
    }
}

impl<T> View for PerfData<T> {
    type V = Seq<RecordModel<T>>;

    open spec fn view(&self) -> Seq<RecordModel<T>> {
        self.samples@.map_values(|s: PerfSample<T>| s@)
    }
}

/// Builds the profile of a document. Every sample counts as one event.
pub fn build<T>(data: PerfData<T>) -> (r: Profile<T>)
    ensures
        r@ == profile_of(data@),
        forall|t: int| 0 <= t < r@.len() ==> (#[trigger] r@[t]).ok(),
{
    let ghost records = data@;
    let mut builder: ThreadBuilder<T> = ThreadBuilder::default();
    assert(builder.threads() =~= threads_of(records.take(0)));
    for sample in it: data.samples
        invariant
            it.seq() == data.samples@,
            records == data@,
            builder.wf(),
            builder.threads() == threads_of(records.take(it.index() as int)),
            builder.frames() == frames_of(records.take(it.index() as int)),
    {
        let ghost k = it.index() as int;
        let ghost done = records.take(k);
        let ghost table = builder.frames();
        let ghost threads = builder.threads();
        let ghost record = sample@;
        let ghost chain = sample.callchain@;
        proof {
            assert(records.take(k + 1).drop_last() =~= done);
            assert(records.take(k + 1).last() == record);
        }
        let mut stack: Vec<FrameId> = Vec::new();
        assert(stack@ =~= ids_in(table, record.stack.take(0)));
        for frame in inner: sample.callchain
            invariant
                inner.seq() == chain,
                record.stack == chain.map_values(|f: PerfFrame| f@),
                builder.wf(),
                builder.threads() == threads,
                builder.frames() == interned_all(table, record.stack.take(inner.index() as int)),
                stack@ == ids_in(builder.frames(), record.stack.take(inner.index() as int)),
        {
            let ghost j = inner.index() as int;
            let ghost before = builder.frames();
            let ghost ids = stack@;
            let id = builder.intern(
                Frame { ip: frame.ip, symbol: frame.symbol, dso: frame.dso },
            );
            stack.push(id);
            proof {
                let f = frame@;
                let shorter = record.stack.take(j);
                let longer = record.stack.take(j + 1);
                assert(longer.drop_last() =~= shorter);
                assert(longer.last() == f);
                lemma_interned_all(table, shorter);
                lemma_interned(before, f, f.key());
                assert(stack@ =~= ids_in(builder.frames(), longer)) by {
                    assert forall|i: int| 0 <= i < longer.len() implies stack@[i] == ids_in(
                        builder.frames(),
                        longer,
                    )[i] by {
                        if i < j {
                            assert(longer[i] == shorter[i]);
                            assert(ids[i] == ids_in(before, shorter)[i]);
                            lemma_interned(before, f, shorter[i].key());
                        }
                    }
                }
            }
        }
        proof {
            assert(record.stack.take(chain.len() as int) =~= record.stack);
        }
        let made = Sample { timestamp_ns: sample.timestamp, stack, weight: 1 };
        assert(made@ == last_sample(records.take(k + 1)));
        builder.push(sample.pid, sample.tid, sample.comm, made);
    }
    proof {
        assert(records.take(records.len() as int) =~= records);
        assert forall|t: int| 0 <= t < profile_of(records).len() implies (
        #[trigger] profile_of(records)[t]).ok() by {
            law_threads_are_ok(records, t);
        }
    }
    builder.finish()
}

/// Every sample of a document is a sample of the thread with its ids, in order: one event,
/// at its time, with all frames of its call chain, leaf first, each under its symbol or,
/// where it has none, its address. (The ids of a table with more frames than there are ids
/// are shared.)
pub proof fn law_perf_json_samples_are_kept<T>(data: PerfData<T>, i: int) -> (r: (int, int))
    requires
        0 <= i < data.samples@.len(),
        frames_of(data@).len() <= 0x1_0000_0000,
    ensures
        ({
            let sample = data.samples@[i];
            let thread = profile_of(data@)[r.0];
            let kept = thread.samples[r.1];
            &&& 0 <= r.0 < profile_of(data@).len()
            &&& thread.pid == sample.pid
            &&& thread.tid == sample.tid
            &&& 0 <= r.1 < thread.samples.len()
            &&& kept.weight == 1
            &&& kept.timestamp_ns == sample.timestamp
            &&& kept.stack.len() == sample.callchain@.len()
            &&& forall|j: int|
                0 <= j < sample.callchain@.len() ==> {
                    let f = #[trigger] sample.callchain@[j];
                    thread.frames[kept.stack[j] as int].key() == if f.symbol is Some
                        && f.symbol->0@.len() > 0 {
                        f.symbol->0@
                    } else {
                        f.ip@
                    }
                }
        }),
{
    let records = data@;
    assert(records[i] == data.samples@[i]@);
    let t = law_records_are_kept(records, i);
    let k = count_of(records.take(i), records[i].pid, records[i].tid) as int;
    let sample = data.samples@[i];
    let thread = profile_of(records)[t];
    assert forall|j: int| 0 <= j < sample.callchain@.len() implies {
        let f = #[trigger] sample.callchain@[j];
        thread.frames[thread.samples[k].stack[j] as int].key() == if f.symbol is Some
            && f.symbol->0@.len() > 0 {
            f.symbol->0@
        } else {
            f.ip@
        }
    } by {
        assert(records[i].stack[j] == sample.callchain@[j]@);
        assert(thread.key(thread.samples[k].stack[j]) == records[i].stack[j].key());
    }
    (t, k)
}

} // verus!
