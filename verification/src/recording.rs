//! What a profile says of the records that it was built from.
//!
//! The parsers all produce the profile that a list of records describes
//! ([`profile_of`]). The laws here say that nothing is lost or made up on the way.

use crate::profile::{
    distinct_keys, find_key, find_thread, frames_of, id_at, interned, last_sample, lemma_find_key,
    lemma_find_thread, lemma_frames_of, lemma_interned, lemma_interned_all, profile_of, recorded,
    threads_of, FrameModel, RecordModel, SampleModel, ThreadModel,
};
use vstd::prelude::*;

verus! {

/// Interning a frame keeps the frames of a table and their ids, finds the frame's
/// identity afterwards, and does nothing more when that identity comes again.
pub proof fn law_intern(frames: Seq<FrameModel>, frame: FrameModel, again: FrameModel)
    requires
        distinct_keys(frames),
        again.key() == frame.key(),
    ensures
        distinct_keys(interned(frames, frame)),
        forall|i: int|
            0 <= i < frames.len() ==> #[trigger] interned(frames, frame)[i] == frames[i],
        find_key(frames, frame.key()) < interned(frames, frame).len(),
        interned(frames, frame)[find_key(frames, frame.key())].key() == frame.key(),
        interned(interned(frames, frame), again) == interned(frames, frame),
        find_key(interned(frames, frame), again.key()) == find_key(frames, frame.key()),
{
    let after = interned(frames, frame);
    lemma_interned(frames, frame, frame.key());
    lemma_find_key(after, frame.key());
    assert forall|i: int| 0 <= i < frames.len() implies #[trigger] after[i] == frames[i] by {
        assert(after.take(frames.len() as int)[i] == frames[i]);
    }
}

/// How many of `records` are of the thread with the given ids.
pub open spec fn count_of<T>(records: Seq<RecordModel<T>>, pid: u64, tid: u64) -> nat
    decreases records.len(),
{
    if records.len() == 0 {
        0
    } else {
        count_of(records.drop_last(), pid, tid) + if records.last().pid == pid
            && records.last().tid == tid {
            1nat
        } else {
            0nat
        }
    }
}

/// The first name that a record of the thread gives.
pub open spec fn name_of<T>(records: Seq<RecordModel<T>>, pid: u64, tid: u64) -> Option<Seq<char>>
    decreases records.len(),
{
    if records.len() == 0 {
        None
    } else if name_of(records.drop_last(), pid, tid) is Some {
        name_of(records.drop_last(), pid, tid)
    } else if records.last().pid == pid && records.last().tid == tid {
        records.last().name
    } else {
        None
    }
}

/// No two threads have the same ids.
pub open spec fn distinct_threads<T>(threads: Seq<ThreadModel<T>>) -> bool {
    forall|i: int, j: int|
        0 <= i < j < threads.len() ==> !((#[trigger] threads[i]).pid == (#[trigger] threads[j]).pid
            && threads[i].tid == threads[j].tid)
}

/// Recording a sample keeps the threads where they are.
proof fn lemma_recorded<T>(
    threads: Seq<ThreadModel<T>>,
    pid: u64,
    tid: u64,
    name: Option<Seq<char>>,
    sample: SampleModel<T>,
    p: u64,
    q: u64,
)
    ensures
        distinct_threads(threads) ==> distinct_threads(recorded(threads, pid, tid, name, sample)),
        p == pid && q == tid ==> find_thread(recorded(threads, pid, tid, name, sample), p, q)
            == find_thread(threads, p, q) && find_thread(threads, p, q) < recorded(
            threads,
            pid,
            tid,
            name,
            sample,
        ).len(),
        find_thread(threads, p, q) < threads.len() ==> find_thread(
            recorded(threads, pid, tid, name, sample),
            p,
            q,
        ) == find_thread(threads, p, q),
        !(p == pid && q == tid) && find_thread(threads, p, q) == threads.len() ==> find_thread(
            recorded(threads, pid, tid, name, sample),
            p,
            q,
        ) == recorded(threads, pid, tid, name, sample).len(),
{
    let after = recorded(threads, pid, tid, name, sample);
    lemma_find_thread(threads, pid, tid);
    lemma_find_thread(threads, p, q);
    lemma_find_thread(after, p, q);
    assert forall|i: int| 0 <= i < threads.len() implies (#[trigger] after[i]).pid == threads[i].pid
        && after[i].tid == threads[i].tid by {}
    let a = find_thread(threads, p, q);
    let b = find_thread(after, p, q);
    if b < a {
        assert(after[b].pid == p && after[b].tid == q);
        if b < threads.len() {
            assert(threads[b].pid == p && threads[b].tid == q);
        }
    }
    if a < threads.len() && a < b {
        assert(after[a].pid == p && after[a].tid == q);
    }
    if a == threads.len() && p == pid && q == tid {
        assert(after[a].pid == p && after[a].tid == q);
    }
}

/// The threads of records: each with as many samples as it has records, and the
/// first name.
proof fn lemma_threads_of<T>(records: Seq<RecordModel<T>>, pid: u64, tid: u64)
    ensures
        distinct_threads(threads_of(records)),
        ({
            let threads = threads_of(records);
            let t = find_thread(threads, pid, tid);
            &&& t < threads.len() <==> count_of(records, pid, tid) > 0
            &&& t < threads.len() ==> {
                &&& threads[t].samples.len() == count_of(records, pid, tid)
                &&& threads[t].name == name_of(records, pid, tid)
            }
            &&& t == threads.len() ==> name_of(records, pid, tid) is None
        }),
    decreases records.len(),
{
    lemma_find_thread(threads_of(records), pid, tid);
    if records.len() > 0 {
        let rest = records.drop_last();
        let before = threads_of(rest);
        let r = records.last();
        let s = last_sample(records);
        lemma_threads_of(rest, pid, tid);
        lemma_find_thread(before, pid, tid);
        lemma_recorded(before, r.pid, r.tid, r.name, s, pid, tid);
        lemma_find_thread(before, r.pid, r.tid);
    }
}

/// Record `i` is the next sample of its thread.
proof fn lemma_record_at<T>(records: Seq<RecordModel<T>>, i: int)
    requires
        0 <= i < records.len(),
    ensures
        ({
            let r = records[i];
            let threads = threads_of(records);
            let t = find_thread(threads, r.pid, r.tid);
            let k = count_of(records.take(i), r.pid, r.tid) as int;
            &&& t < threads.len()
            &&& k < threads[t].samples.len()
            &&& threads[t].samples[k] == last_sample(records.take(i + 1))
        }),
    decreases records.len(),
{
    let r = records[i];
    let rest = records.drop_last();
    let before = threads_of(rest);
    let last = records.last();
    lemma_find_thread(before, r.pid, r.tid);
    lemma_find_thread(before, last.pid, last.tid);
    lemma_recorded(before, last.pid, last.tid, last.name, last_sample(records), r.pid, r.tid);
    if i == records.len() - 1 {
        lemma_threads_of(rest, r.pid, r.tid);
        assert(records.take(i) =~= rest);
        assert(records.take(i + 1) =~= records);
    } else {
        lemma_record_at(rest, i);
        assert(rest.take(i) =~= records.take(i));
        assert(rest.take(i + 1) =~= records.take(i + 1));
    }
}

/// The frames of a part of the records stand first in the table of all.
proof fn lemma_frames_prefix<T>(records: Seq<RecordModel<T>>, n: int)
    requires
        0 <= n <= records.len(),
    ensures
        frames_of(records.take(n)).len() <= frames_of(records).len(),
        forall|i: int|
            0 <= i < frames_of(records.take(n)).len() ==> #[trigger] frames_of(records)[i]
                == frames_of(records.take(n))[i],
    decreases records.len(),
{
    if n == records.len() {
        assert(records.take(n) =~= records);
    } else {
        let rest = records.drop_last();
        lemma_frames_prefix(rest, n);
        assert(rest.take(n) =~= records.take(n));
        let mid = frames_of(rest);
        let all = frames_of(records);
        lemma_interned_all(mid, records.last().stack);
        assert forall|i: int|
            0 <= i < frames_of(records.take(n)).len() implies #[trigger] all[i] == frames_of(
            records.take(n),
        )[i] by {
            assert(all.take(mid.len() as int)[i] == mid[i]);
        }
    }
}

/// A profile has one thread for each pair of ids, and every stack of it refers to
/// the profile's frames.
pub proof fn law_threads_are_ok<T>(records: Seq<RecordModel<T>>, t: int)
    requires
        0 <= t < profile_of(records).len(),
    ensures
        distinct_threads(profile_of(records)),
        profile_of(records)[t].ok(),
        profile_of(records)[t].frames == frames_of(records),
{
    let profile = profile_of(records);
    let threads = threads_of(records);
    lemma_threads_of(records, profile[t].pid, profile[t].tid);
    lemma_frames_of(records);
    assert forall|i: int, j: int| 0 <= i < j < profile.len() implies !((#[trigger] profile[i]).pid
        == (#[trigger] profile[j]).pid && profile[i].tid == profile[j].tid) by {
        assert(!(threads[i].pid == threads[j].pid && threads[i].tid == threads[j].tid));
    }
    let n = frames_of(records).len() as int;
    assert forall|i: int, j: int|
        0 <= i < profile[t].samples.len() && 0 <= j < profile[t].samples[i].stack.len() implies (
    #[trigger] profile[t].samples[i].stack[j] as int) < n by {
        lemma_stacks(records, t, i, j);
    }
}

/// Every id that a thread's stacks hold is that of a frame of the table.
proof fn lemma_stacks<T>(records: Seq<RecordModel<T>>, t: int, i: int, j: int)
    requires
        0 <= t < threads_of(records).len(),
        0 <= i < threads_of(records)[t].samples.len(),
        0 <= j < threads_of(records)[t].samples[i].stack.len(),
    ensures
        (threads_of(records)[t].samples[i].stack[j] as int) < frames_of(records).len(),
    decreases records.len(),
{
    if records.len() > 0 {
        let rest = records.drop_last();
        let before = threads_of(rest);
        let last = records.last();
        let s = last_sample(records);
        let f = find_thread(before, last.pid, last.tid);
        lemma_find_thread(before, last.pid, last.tid);
        lemma_interned_all(frames_of(rest), last.stack);
        if t < before.len() && i < before[t].samples.len() {
            assert(threads_of(records)[t].samples[i] == before[t].samples[i]);
            lemma_stacks(rest, t, i, j);
        } else {
            assert(threads_of(records)[t].samples[i] == s);
            let frames = frames_of(records);
            let k = find_key(frames, last.stack[j].key());
            lemma_find_key(frames, last.stack[j].key());
            assert(s.stack[j] == id_at(k));
            assert(0 <= k < frames.len());
            assert(k % 0x1_0000_0000 <= k) by (nonlinear_arith)
                requires
                    k >= 0,
            ;
        }
    }
}

/// Every record is a sample of its thread, in the order of the records, with its
/// time, its weight, and a stack whose frames have the identities of the record's.
/// (The ids of a table with more frames than there are ids are shared.)
pub proof fn law_records_are_kept<T>(records: Seq<RecordModel<T>>, i: int) -> (t: int)
    requires
        0 <= i < records.len(),
        frames_of(records).len() <= 0x1_0000_0000,
    ensures
        0 <= t < profile_of(records).len(),
        profile_of(records)[t].pid == records[i].pid,
        profile_of(records)[t].tid == records[i].tid,
        ({
            let k = count_of(records.take(i), records[i].pid, records[i].tid) as int;
            let thread = profile_of(records)[t];
            &&& k < thread.samples.len()
            &&& thread.samples[k].timestamp_ns == records[i].timestamp_ns
            &&& thread.samples[k].weight == records[i].weight
            &&& thread.samples[k].stack.len() == records[i].stack.len()
            &&& forall|j: int|
                0 <= j < records[i].stack.len() ==> thread.key(#[trigger] thread.samples[k].stack[j])
                    == records[i].stack[j].key()
        }),
{
    let r = records[i];
    let threads = threads_of(records);
    let t = find_thread(threads, r.pid, r.tid);
    lemma_find_thread(threads, r.pid, r.tid);
    lemma_record_at(records, i);
    let part = records.take(i + 1);
    assert(part.last() == r);
    let early = frames_of(part);
    let frames = frames_of(records);
    lemma_frames_prefix(records, i + 1);
    lemma_interned_all(frames_of(part.drop_last()), r.stack);
    let thread = profile_of(records)[t];
    let k = count_of(records.take(i), r.pid, r.tid) as int;
    assert forall|j: int| 0 <= j < r.stack.len() implies thread.key(
        #[trigger] thread.samples[k].stack[j],
    ) == r.stack[j].key() by {
        let at = find_key(early, r.stack[j].key());
        lemma_find_key(early, r.stack[j].key());
        assert(at < early.len());
        assert(thread.samples[k].stack[j] == id_at(at));
        assert(at % 0x1_0000_0000 == at);
        assert(frames[at] == early[at]);
    }
    t
}

/// A thread has no more samples than it has records, and its name is the first that
/// one of them gives.
pub proof fn law_nothing_is_added<T>(records: Seq<RecordModel<T>>, t: int)
    requires
        0 <= t < profile_of(records).len(),
    ensures
        profile_of(records)[t].samples.len() == count_of(
            records,
            profile_of(records)[t].pid,
            profile_of(records)[t].tid,
        ),
        profile_of(records)[t].samples.len() > 0,
        profile_of(records)[t].name == name_of(
            records,
            profile_of(records)[t].pid,
            profile_of(records)[t].tid,
        ),
{
    let threads = threads_of(records);
    let thread = threads[t];
    lemma_threads_of(records, thread.pid, thread.tid);
    lemma_find_thread(threads, thread.pid, thread.tid);
    let f = find_thread(threads, thread.pid, thread.tid);
    if f < t {
        assert(threads[f].pid == thread.pid && threads[f].tid == thread.tid);
    }
}

/// Where a thread's sample comes from.
proof fn lemma_origin<T>(records: Seq<RecordModel<T>>, t: int, k: int) -> (i: int)
    requires
        0 <= t < threads_of(records).len(),
        0 <= k < threads_of(records)[t].samples.len(),
    ensures
        0 <= i < records.len(),
        records[i].pid == threads_of(records)[t].pid,
        records[i].tid == threads_of(records)[t].tid,
        count_of(records.take(i), records[i].pid, records[i].tid) == k,
        threads_of(records)[t].samples[k] == last_sample(records.take(i + 1)),
    decreases records.len(),
{
    let rest = records.drop_last();
    let before = threads_of(rest);
    let last = records.last();
    lemma_find_thread(before, last.pid, last.tid);
    if t < before.len() && k < before[t].samples.len() {
        let i = lemma_origin(rest, t, k);
        assert(rest.take(i) =~= records.take(i));
        assert(rest.take(i + 1) =~= records.take(i + 1));
        i
    } else {
        let i = records.len() - 1;
        lemma_threads_of(rest, last.pid, last.tid);
        assert(records.take(i) =~= rest);
        assert(records.take(i + 1) =~= records);
        i
    }
}

/// Every sample of a thread is one of its records, the samples in the order of the
/// records.
pub proof fn law_samples_are_records<T>(records: Seq<RecordModel<T>>, t: int, k: int) -> (i: int)
    requires
        0 <= t < profile_of(records).len(),
        0 <= k < profile_of(records)[t].samples.len(),
    ensures
        0 <= i < records.len(),
        records[i].pid == profile_of(records)[t].pid,
        records[i].tid == profile_of(records)[t].tid,
        count_of(records.take(i), records[i].pid, records[i].tid) == k,
        profile_of(records)[t].samples[k].timestamp_ns == records[i].timestamp_ns,
        profile_of(records)[t].samples[k].weight == records[i].weight,
        profile_of(records)[t].samples[k].stack.len() == records[i].stack.len(),
{
    let i = lemma_origin(records, t, k);
    assert(records.take(i + 1).last() == records[i]);
    i
}

} // verus!
