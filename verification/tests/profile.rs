//! Frames, interning, threads and profiles.

use std::sync::Arc;

use flamegraph_viewer::flame::{
    call_tree, flat_profile, left_heavy, symbol_stats, FunctionStat, Stats,
};
use flamegraph_viewer::profile::{Frame, FrameTable, Profile, Sample, ThreadBuilder};

fn frame(ip: &str, symbol: Option<&str>) -> Frame {
    Frame { ip: ip.to_string(), symbol: symbol.map(|s| s.to_string()), dso: None }
}

fn sample(timestamp_ns: u32, stack: Vec<u32>, weight: u64) -> Sample<u32> {
    Sample { timestamp_ns, stack, weight }
}

#[test]
fn identity_is_the_symbol_or_the_address() {
    assert_eq!(frame("0x1", Some("main")).key(), "main");
    assert_eq!(frame("0x1", Some("")).key(), "0x1");
    assert_eq!(frame("0x1", None).key(), "0x1");
}

#[test]
fn interning_merges_by_identity() {
    let mut table = FrameTable::default();
    assert!(table.is_empty());
    let a = table.intern(frame("0x1", Some("main")));
    let b = table.intern(frame("0x2", Some("other")));
    let again = table.intern(frame("0x3", Some("main")));
    assert_eq!(a, again);
    assert_ne!(a, b);
    assert_eq!(table.len(), 2);
    assert!(!table.is_empty());
    // The first frame with an identity is the one that is kept.
    assert_eq!(table.get(a).ip, "0x1");
    assert_eq!(table.get(b).ip, "0x2");
}

#[test]
fn builder_groups_by_ids() {
    let mut builder = ThreadBuilder::default();
    let f = builder.intern(frame("0x1", Some("f")));
    let g = builder.intern(frame("0x2", Some("g")));
    builder.push(1, 2, None, sample(10, vec![f], 3));
    builder.push(1, 3, Some("late".to_string()), sample(11, vec![g, f], 1));
    builder.push(1, 2, Some("named".to_string()), sample(12, vec![], 4));
    builder.push(1, 2, Some("renamed".to_string()), sample(13, vec![f], 5));
    let profile = builder.finish();

    assert_eq!(profile.threads.len(), 2);
    let t = &profile.threads[0];
    assert_eq!((t.pid, t.tid), (1, 2));
    // The first name that is given stays.
    assert_eq!(t.name.as_deref(), Some("named"));
    assert_eq!(t.label(), "named [1/2]");
    assert_eq!(t.first_timestamp_ns(), Some(10));
    assert_eq!(t.last_timestamp_ns(), Some(13));
    assert_eq!(t.event_count(), 12);
    assert_eq!(t.max_depth(), 1);
    assert_eq!(t.key(f), "f");
    assert_eq!(t.frame(f).ip, "0x1");
    assert_eq!(profile.threads[1].max_depth(), 2);
    assert_eq!(profile.threads[1].key(g), "g");

    assert_eq!(profile.total_samples(), 4);
    assert_eq!(profile.event_count(), 13);
    assert_eq!(profile.threads_by_samples(), [0, 1]);
    assert_eq!(profile.busiest_thread(), Some(0));
    assert!(!profile.is_empty());
}

#[test]
fn ties_keep_the_order_of_threads() {
    let mut builder = ThreadBuilder::default();
    for tid in [5, 6, 7, 6, 7, 8] {
        builder.push(1, tid, None, sample(0, vec![], 1));
    }
    let profile = builder.finish();
    assert_eq!(profile.threads_by_samples(), [1, 2, 0, 3]);
    assert_eq!(profile.busiest_thread(), Some(1));
}

#[test]
fn events_that_do_not_fit_are_found() {
    let mut builder = ThreadBuilder::default();
    builder.push(1, 1, None, sample(0, vec![], u64::MAX));
    builder.push(1, 2, None, sample(0, vec![], 1));
    let profile = builder.finish();
    assert_eq!(profile.threads[0].checked_event_count(), Some(u64::MAX));
    assert_eq!(profile.checked_event_count(), None);
}

#[test]
fn times_are_mapped_and_the_rest_stays() {
    let mut builder = ThreadBuilder::default();
    let f = builder.intern(frame("0x1", Some("f")));
    builder.push(1, 1, Some("a".to_string()), sample(3, vec![f], 2));
    let profile: Profile<f64> = builder.finish().map_times(|t: u32| t as f64 * 2.0);
    let t = &profile.threads[0];
    assert_eq!(t.samples[0].timestamp_ns, 6.0);
    assert_eq!((t.samples[0].weight, t.label().as_str()), (2, "a [1/1]"));
    assert_eq!(t.key(t.samples[0].stack[0]), "f");
}

#[test]
fn empty_profile() {
    let profile: Profile<u32> = Profile::default();
    assert!(profile.is_empty());
    assert_eq!(profile.total_samples(), 0);
    assert_eq!(profile.event_count(), 0);
    assert_eq!(profile.busiest_thread(), None);
    assert!(profile.threads_by_samples().is_empty());
}

#[test]
fn builder_takes_calls_in_any_order() {
    let mut builder = ThreadBuilder::default();
    let a = builder.intern(frame("0x1", Some("a")));
    builder.push(1, 2, None, sample(10, vec![a], 1));
    builder.push(2, 1, Some("other".to_string()), sample(11, vec![], 1));
    let b = builder.intern(frame("0x2", Some("b")));
    assert_eq!(builder.intern(frame("0x3", Some("a"))), a);
    builder.push(1, 2, Some("first".to_string()), sample(12, vec![b, a], 4));
    builder.push(u64::MAX, u64::MAX, None, sample(13, vec![b], 1));
    builder.push(u64::MAX, 0, None, sample(14, vec![a], 1));
    builder.push(1, 2, Some("second".to_string()), sample(15, vec![], 1));
    builder.push(u64::MAX, u64::MAX, None, sample(16, vec![], 1));
    let profile = builder.finish();
    let ids: Vec<(u64, u64)> = profile.threads.iter().map(|t| (t.pid, t.tid)).collect();
    assert_eq!(ids, [(1, 2), (2, 1), (u64::MAX, u64::MAX), (u64::MAX, 0)]);
    let times: Vec<Vec<u32>> = profile
        .threads
        .iter()
        .map(|t| t.samples.iter().map(|s| s.timestamp_ns).collect())
        .collect();
    assert_eq!(times, [vec![10, 12, 15], vec![11], vec![13, 16], vec![14]]);
    assert_eq!(profile.threads[0].name.as_deref(), Some("first"));
    for thread in &profile.threads {
        assert!(Arc::ptr_eq(&thread.frames, &profile.threads[0].frames));
        assert_eq!(thread.key(a), "a");
        assert_eq!(thread.key(b), "b");
    }
}

#[test]
fn tree_total_counts_samples_without_a_stack() {
    let mut builder = ThreadBuilder::default();
    let main = builder.intern(frame("0x1", Some("main")));
    builder.push(1, 1, None, sample(0, vec![], 5));
    builder.push(1, 1, None, sample(10, vec![main], 2));
    let profile = builder.finish();
    let tree = call_tree(&profile.threads[0]);
    assert_eq!(tree.total_samples, 7);
    assert_eq!(tree.total_samples, profile.threads[0].event_count());
    assert_eq!(tree.roots[0].total_samples, 2);
}

#[test]
fn merging_ignores_order_and_times() {
    let recorded = [
        (0, vec![1, 0], 4),
        (1, vec![2, 0], 3),
        (2, vec![1, 0], 2),
        (3, vec![], 5),
        (4, vec![2], 3),
        (5, vec![1, 0], 4),
    ];
    let build = |order: [usize; 6], step: u32| {
        let mut builder = ThreadBuilder::default();
        for name in ["main", "a", "b"] {
            builder.intern(frame("0x1", Some(name)));
        }
        for i in order {
            let (time, stack, weight) = recorded[i].clone();
            builder.push(1, 1, None, sample(time * step, stack, weight));
        }
        builder.finish()
    };
    let first = build([0, 1, 2, 3, 4, 5], 1);
    let tree = call_tree(&first.threads[0]);
    assert_eq!(tree.total_samples, 21);
    assert_eq!((tree.roots[0].frame, tree.roots[0].total_samples), (0, 13));
    assert_eq!((tree.roots[0].children[0].frame, tree.roots[0].children[0].self_samples), (1, 10));
    for order in [[5, 4, 3, 2, 1, 0], [3, 0, 5, 2, 4, 1], [1, 0, 3, 2, 5, 4]] {
        let other = build(order, 7);
        assert_eq!(call_tree(&other.threads[0]), tree);
        assert_eq!(left_heavy(&other.threads[0]), left_heavy(&first.threads[0]));
    }
}

#[test]
fn rows_match_the_statistics() {
    let mut builder = ThreadBuilder::default();
    let main = builder.intern(frame("0x1", Some("main")));
    let f = builder.intern(frame("0x2", Some("f")));
    builder.push(1, 1, None, sample(0, vec![f, f, main], 1));
    builder.push(1, 1, None, sample(1, vec![main], 2));
    builder.push(1, 1, None, sample(2, vec![f, main], 4));
    let profile = builder.finish();
    let stats = symbol_stats(&profile.threads[0]);
    let rows = flat_profile(&profile.threads[0]);
    assert_eq!(rows.len(), 2);
    assert_eq!(rows[0].key, "f");
    assert_eq!((&rows[0].self_in, &rows[0].total_in), (&vec![0, 2], &vec![0, 2]));
    for row in &rows {
        let of = stats.get(&row.key).unwrap();
        assert_eq!((&row.self_in, &row.total_in), (&of.self_in, &of.total_in));
    }
    assert!(stats.get("g").is_none());
}

#[test]
fn statistics_start_empty() {
    let stats = Stats::default();
    assert!(stats.self_in.is_empty() && stats.total_in.is_empty());
    let row = FunctionStat::default();
    assert_eq!((row.key.as_str(), row.self_events, row.total_events), ("", 0, 0));
}
