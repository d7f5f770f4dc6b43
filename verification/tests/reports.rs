//! Weighted counts, offsets and the left-heavy layout.

use std::collections::BTreeMap;

use flamegraph_viewer::flame;
use flamegraph_viewer::parsers::perf_json::{build, PerfData, PerfFrame, PerfSample};
use flamegraph_viewer::parsers::{perf_script, Options};
use flamegraph_viewer::profile::Profile;

const WEIGHTED_PERF: &str = "\
app 1/1 1.0: 5 cycles:
\t104 alpha+0x4 (/bin/app)
\t10 main+0x10 (/bin/app)

app 1/1 2.0: 3 cycles:
\t108 alpha+0x8 (/bin/app)
\t10 main+0x10 (/bin/app)

worker 1/2 2.5: 4 cycles:
\t300 spin+0x0 (/bin/app)
\t20 worker+0x20 (/bin/app)

app 1/1 3.0: 2 cycles:
\t200 gamma+0x1 (/bin/app)
\t10 main+0x10 (/bin/app)

worker 1/2 3.5: 6 cycles:
\t300 spin+0x0 (/bin/app)
\t20 worker+0x20 (/bin/app)

app 1/1 4.0: 10 cycles:
\t200 gamma+0x1 (/bin/app)
\t10 main+0x10 (/bin/app)
";

const CONSISTENCY_PERF: &str = "\
app 100/100 1.000000: 1 cycles:
\t00000000000000b1 alpha (/bin/app)
\t00000000000000b0 alpha (/bin/app)
\t0000000000000010 main (/bin/app)

app 100/100 1.001000: 1 cycles:
\t00000000000000b1 alpha (/bin/app)
\t00000000000000b0 alpha (/bin/app)
\t0000000000000010 main (/bin/app)

worker 100/200 1.001500: 1 cycles:
\t00000000000000d0 spin (/bin/app)
\t00000000000000c0 worker_main (/bin/app)

app 100/100 1.002000: 1 cycles:
\t00000000000000b2 beta (/bin/app)
\t00000000000000b0 alpha (/bin/app)
\t0000000000000010 main (/bin/app)

app 100/100 1.003000: 1 cycles:
\t00000000000000b3 gamma (/bin/app)
\t0000000000000010 main (/bin/app)

app 100/100 1.004000: 1 cycles:
\t00000000000000b3 gamma (/bin/app)
\t0000000000000010 main (/bin/app)

worker 100/200 1.004500: 1 cycles:
\t00000000000000c0 worker_main (/bin/app)

app 100/100 1.005000: 1 cycles:
\t00000000000000a0 [unknown] ([unknown])
\t0000000000000010 main (/bin/app)

app 100/100 1.006000: 1 cycles:
\t00000000000000b3 gamma (/bin/app)
\t0000000000000010 main (/bin/app)
";

const MINI_PERF: &str = "\
app 100/100 0.000001000: 1 cycles:
\t1001 leaf_a+0x4 (/bin/app)
\t1000 root+0x10 (/bin/app)

app 100/100 0.000002000: 1 cycles:
\t1002 leaf_b+0x8 (/bin/app)
\t1000 root+0x10 (/bin/app)

app 100/101 0.000002500: 1 cycles:
\t1003 idle+0x0 (/bin/app)

app 100/100 0.000003000: 1 cycles:
\t1001 leaf_a+0x4 (/bin/app)
\t1000 root+0x10 (/bin/app)
";

fn load(text: &str) -> Profile<String> {
    perf_script::parse_str(text, Options::default())
}

/// The numbers `perf report` would print, computed by hand from the periods.
#[test]
fn matches_hand_computed_perf_report() {
    let profile = load(WEIGHTED_PERF);

    // Event totals: app = 5+3+2+10 = 20, worker = 4+6 = 10.
    assert_eq!(profile.event_count(), 30);

    let app = profile.threads.iter().find(|t| t.tid == 1).unwrap();
    let rows: BTreeMap<String, (u64, u64)> = flame::flat_profile(app)
        .into_iter()
        .map(|r| (r.key, (r.self_events, r.total_events)))
        .collect();
    // (self events, total events), offsets stripped so alpha+0x4 / alpha+0x8 fuse.
    assert_eq!(rows["main"], (0, 20));
    assert_eq!(rows["alpha"], (8, 8));
    assert_eq!(rows["gamma"], (12, 12));

    let worker = profile.threads.iter().find(|t| t.tid == 2).unwrap();
    let rows: BTreeMap<String, (u64, u64)> = flame::flat_profile(worker)
        .into_iter()
        .map(|r| (r.key, (r.self_events, r.total_events)))
        .collect();
    assert_eq!(rows["worker"], (0, 10));
    assert_eq!(rows["spin"], (10, 10));
}

/// With `include_offset`, `alpha+0x4` and `alpha+0x8` stay distinct.
#[test]
fn offset_option_keeps_instruction_detail() {
    let opts = Options { include_offset: true };
    let profile = perf_script::parse_str(WEIGHTED_PERF, opts);
    let app = profile.threads.iter().find(|t| t.tid == 1).unwrap();
    let keys: Vec<String> = flame::flat_profile(app).into_iter().map(|r| r.key).collect();

    assert!(keys.iter().any(|k| k == "alpha+0x4"));
    assert!(keys.iter().any(|k| k == "alpha+0x8"));
    assert!(keys.iter().any(|k| k == "main+0x10"));
    // The fused name must not appear when offsets are retained.
    assert!(!keys.iter().any(|k| k == "alpha"));
}

/// The left-heavy layout conserves events: the first row's bricks sum to exactly the
/// total, no row to more, and each brick has one parent.
#[test]
fn left_heavy_layout_conserves_events() {
    for (name, text) in [
        ("weighted.perf", WEIGHTED_PERF),
        ("consistency.perf", CONSISTENCY_PERF),
        ("mini.perf", MINI_PERF),
    ] {
        let profile = load(text);
        for thread in &profile.threads {
            let bricks = flame::left_heavy(thread);
            let events = thread.event_count();

            let depth1: u64 = bricks.iter().filter(|b| b.depth == 1).map(|b| b.samples).sum();
            assert_eq!(depth1, events, "{name}: roots cover all events");

            let max_depth = bricks.iter().map(|b| b.depth).max().unwrap_or(0);
            for d in 1..=max_depth {
                let row: u64 = bricks.iter().filter(|b| b.depth == d).map(|b| b.samples).sum();
                assert!(row <= events, "{name}: depth {d} width {row} exceeds {events}");
            }

            for child in bricks.iter().filter(|b| b.depth >= 2) {
                let parents = bricks
                    .iter()
                    .filter(|p| p.depth == child.depth - 1)
                    .filter(|p| {
                        p.start <= child.start && p.start + p.width >= child.start + child.width
                    })
                    .count();
                assert_eq!(parents, 1, "{name}: each brick has one parent");
            }
        }
    }
}

#[test]
fn left_heavy_puts_the_widest_on_the_left() {
    let profile = load(WEIGHTED_PERF);
    let app = profile.threads.iter().find(|t| t.tid == 1).unwrap();
    let bricks = flame::left_heavy(app);
    let shape: Vec<(usize, u64, u64, &str)> =
        bricks.iter().map(|b| (b.depth, b.start, b.width, app.key(b.frame))).collect();
    assert_eq!(shape, [(2, 0, 12, "gamma"), (2, 12, 8, "alpha"), (1, 0, 20, "main")]);
}

#[test]
fn sample_without_stack_has_no_place_in_the_tree() {
    let sample = |chain: Vec<PerfFrame>| PerfSample {
        timestamp: 0u32,
        pid: 1,
        tid: 1,
        comm: None,
        callchain: chain,
    };
    let main = PerfFrame { ip: "0x1".to_string(), symbol: Some("main".to_string()), dso: None };
    let profile = build(PerfData { samples: vec![sample(vec![]), sample(vec![main])] });
    let thread = &profile.threads[0];
    assert_eq!(thread.event_count(), 2);
    let tree = flame::call_tree(thread);
    assert_eq!(tree.total_samples, 2);
    assert_eq!(tree.roots.iter().map(|r| r.total_samples).sum::<u64>(), 1);
    assert_eq!(flame::left_heavy(thread).len(), 1);
    assert_eq!(flame::layout(thread).len(), 1);
}
