//! Cross-validation: every span's count and place must agree with an independent
//! reading of the same text, which shares no code with the library.

use std::collections::{BTreeMap, BTreeSet};

use flamegraph_viewer::flame::{self, CallNode, CallTree};
use flamegraph_viewer::parsers::gecko::{
    FuncTable, GeckoFrameTable, GeckoMeta, GeckoProfile, GeckoThread, Samples, StackTable,
};
use flamegraph_viewer::parsers::perf_json::{build, PerfData, PerfFrame, PerfSample};
use flamegraph_viewer::parsers::{perf_script, Options};
use flamegraph_viewer::profile::{Profile, Thread};

const CONSISTENCY_PERF: &str = "\
app 100/100 1.000000: 1 cycles:
\t00000000000000b1 alpha (/bin/app)
\t00000000000000b0 alpha (/bin/app)
\t0000000000000010 main (/bin/app)

app 100/100 1.001000: 1 cycles:
\t00000000000000b1 alpha (/bin/app)
\t00000000000000b0 alpha (/bin/app)
\t0000000000000010 main (/bin/app)

worker 100/200 1.001500: 1 cycles:
\t00000000000000d0 spin (/bin/app)
\t00000000000000c0 worker_main (/bin/app)

app 100/100 1.002000: 1 cycles:
\t00000000000000b2 beta (/bin/app)
\t00000000000000b0 alpha (/bin/app)
\t0000000000000010 main (/bin/app)

app 100/100 1.003000: 1 cycles:
\t00000000000000b3 gamma (/bin/app)
\t0000000000000010 main (/bin/app)

app 100/100 1.004000: 1 cycles:
\t00000000000000b3 gamma (/bin/app)
\t0000000000000010 main (/bin/app)

worker 100/200 1.004500: 1 cycles:
\t00000000000000c0 worker_main (/bin/app)

app 100/100 1.005000: 1 cycles:
\t00000000000000a0 [unknown] ([unknown])
\t0000000000000010 main (/bin/app)

app 100/100 1.006000: 1 cycles:
\t00000000000000b3 gamma (/bin/app)
\t0000000000000010 main (/bin/app)
";

const MINI_PERF: &str = "\
app 100/100 0.000001000: 1 cycles:
\t1001 leaf_a+0x4 (/bin/app)
\t1000 root+0x10 (/bin/app)

app 100/100 0.000002000: 1 cycles:
\t1002 leaf_b+0x8 (/bin/app)
\t1000 root+0x10 (/bin/app)

app 100/101 0.000002500: 1 cycles:
\t1003 idle+0x0 (/bin/app)

app 100/100 0.000003000: 1 cycles:
\t1001 leaf_a+0x4 (/bin/app)
\t1000 root+0x10 (/bin/app)
";

const WEIGHTED_PERF: &str = "\
app 1/1 1.0: 5 cycles:
\t104 alpha+0x4 (/bin/app)
\t10 main+0x10 (/bin/app)

app 1/1 2.0: 3 cycles:
\t108 alpha+0x8 (/bin/app)
\t10 main+0x10 (/bin/app)

worker 1/2 2.5: 4 cycles:
\t300 spin+0x0 (/bin/app)
\t20 worker+0x20 (/bin/app)

app 1/1 3.0: 2 cycles:
\t200 gamma+0x1 (/bin/app)
\t10 main+0x10 (/bin/app)

worker 1/2 3.5: 6 cycles:
\t300 spin+0x0 (/bin/app)
\t20 worker+0x20 (/bin/app)

app 1/1 4.0: 10 cycles:
\t200 gamma+0x1 (/bin/app)
\t10 main+0x10 (/bin/app)
";

fn load(text: &str) -> Profile<String> {
    perf_script::parse_str(text, Options::default())
}

fn thread(profile: &Profile<String>, pid: u64, tid: u64) -> &Thread<String> {
    profile.threads.iter().find(|t| t.pid == pid && t.tid == tid).expect("thread present")
}

/// Root-first call paths, grouped by `(pid, tid)`.
type Oracle = BTreeMap<(u64, u64), Vec<Vec<String>>>;

fn flush(threads: &mut Oracle, current: &mut Option<((u64, u64), Vec<String>)>) {
    if let Some((tt, mut leaf_first)) = current.take() {
        if !leaf_first.is_empty() {
            leaf_first.reverse();
            threads.entry(tt).or_default().push(leaf_first);
        }
    }
}

fn oracle(text: &str) -> Oracle {
    let mut threads: Oracle = BTreeMap::new();
    let mut current: Option<((u64, u64), Vec<String>)> = None;
    for line in text.lines() {
        if line.trim().is_empty() {
            flush(&mut threads, &mut current);
        } else if line.starts_with(char::is_whitespace) {
            if let (Some((_, stack)), Some(key)) = (current.as_mut(), frame_key(line)) {
                stack.push(key);
            }
        } else {
            flush(&mut threads, &mut current);
            current = parse_pid_tid(line).map(|tt| (tt, Vec::new()));
        }
    }
    flush(&mut threads, &mut current);
    threads
}

/// Frame identity: the symbol when present, else the address.
fn frame_key(line: &str) -> Option<String> {
    let line = line.trim();
    let (addr, rest) = line.split_once(char::is_whitespace)?;
    let symbol = match rest.rsplit_once(" (") {
        Some((sym, _dso)) => sym.trim(),
        None => rest.trim(),
    };
    Some(match clean(symbol) {
        Some(symbol) => symbol,
        None => format!("0x{}", addr.trim_start_matches("0x")),
    })
}

fn clean(value: &str) -> Option<String> {
    let value = value.trim();
    if value.is_empty() || value == "[unknown]" {
        None
    } else {
        Some(value.to_string())
    }
}

fn parse_pid_tid(line: &str) -> Option<(u64, u64)> {
    line.split_whitespace().find_map(|token| {
        let (pid, tid) = token.split_once('/')?;
        Some((pid.parse().ok()?, tid.parse().ok()?))
    })
}

/// The stacks as `root-first path -> (total, self)` counts.
fn oracle_paths(stacks: &[Vec<String>]) -> BTreeMap<Vec<String>, (u64, u64)> {
    let mut paths: BTreeMap<Vec<String>, (u64, u64)> = BTreeMap::new();
    for stack in stacks {
        for depth in 0..stack.len() {
            let entry = paths.entry(stack[0..=depth].to_vec()).or_default();
            entry.0 += 1;
            if depth == stack.len() - 1 {
                entry.1 += 1;
            }
        }
    }
    paths
}

fn walk(
    thread: &Thread<String>,
    nodes: &[CallNode],
    prefix: &mut Vec<String>,
    out: &mut BTreeMap<Vec<String>, (u64, u64)>,
) {
    for node in nodes {
        prefix.push(thread.key(node.frame).to_string());
        out.insert(prefix.clone(), (node.total_samples, node.self_samples));
        walk(thread, &node.children, prefix, out);
        prefix.pop();
    }
}

/// The call tree as the same `path -> (total, self)` map.
fn tree_paths(thread: &Thread<String>) -> BTreeMap<Vec<String>, (u64, u64)> {
    let tree = flame::call_tree(thread);
    let mut out = BTreeMap::new();
    walk(thread, &tree.roots, &mut Vec::new(), &mut out);
    out
}

#[test]
fn call_tree_matches_independent_oracle() {
    let oracle = oracle(CONSISTENCY_PERF);
    let profile = load(CONSISTENCY_PERF);

    let our_threads: BTreeSet<(u64, u64)> =
        profile.threads.iter().map(|t| (t.pid, t.tid)).collect();
    let oracle_threads: BTreeSet<(u64, u64)> = oracle.keys().copied().collect();
    assert_eq!(our_threads, oracle_threads);

    for (&(pid, tid), stacks) in &oracle {
        let thread = thread(&profile, pid, tid);
        assert_eq!(
            thread.samples.len(),
            stacks.len(),
            "sample count mismatch for {pid}/{tid}"
        );
        // Every period is 1, so events and samples coincide.
        assert_eq!(flame::call_tree(thread).total_samples, thread.event_count());
        assert_eq!(thread.event_count() as usize, stacks.len());
        assert_eq!(
            tree_paths(thread),
            oracle_paths(stacks),
            "call-tree counts/hierarchy mismatch for {pid}/{tid}"
        );
    }
}

#[test]
fn known_counts_in_consistency_fixture() {
    let profile = load(CONSISTENCY_PERF);
    let app = thread(&profile, 100, 100);
    let paths = tree_paths(app);

    let p = |keys: &[&str]| keys.iter().map(|s| s.to_string()).collect::<Vec<_>>();

    // main is the root of all 7 app samples and is never itself the leaf.
    assert_eq!(paths[&p(&["main"])], (7, 0));
    // alpha appears in 3 samples; it recurses once and that inner frame is the leaf
    // of 2 samples.
    assert_eq!(paths[&p(&["main", "alpha"])], (3, 0));
    assert_eq!(paths[&p(&["main", "alpha", "alpha"])], (2, 2));
    assert_eq!(paths[&p(&["main", "alpha", "beta"])], (1, 1));
    // gamma is the leaf of 3 samples.
    assert_eq!(paths[&p(&["main", "gamma"])], (3, 3));
    // The unknown leaf is keyed by its instruction pointer.
    assert_eq!(paths[&p(&["main", "0x00000000000000a0"])], (1, 1));
}

fn perf_frame(ip: &str, symbol: &str) -> PerfFrame {
    PerfFrame { ip: ip.to_string(), symbol: Some(symbol.to_string()), dso: None }
}

fn mini_json() -> Profile<f64> {
    let chain = |leaf: PerfFrame| vec![leaf, perf_frame("0x1000", "root")];
    let sample = |timestamp: f64, tid: u64, callchain: Vec<PerfFrame>| PerfSample {
        timestamp,
        pid: 100,
        tid,
        comm: Some("app".to_string()),
        callchain,
    };
    build(PerfData {
        samples: vec![
            sample(1000.0, 100, chain(perf_frame("0x1001", "leaf_a"))),
            sample(2000.0, 100, chain(perf_frame("0x1002", "leaf_b"))),
            sample(2500.0, 101, vec![perf_frame("0x1003", "idle")]),
            sample(3000.0, 100, chain(perf_frame("0x1001", "leaf_a"))),
        ],
    })
}

fn mini_gecko() -> Profile<f64> {
    GeckoProfile {
        meta: GeckoMeta { sample_units: None },
        threads: vec![GeckoThread {
            name: Some("app".to_string()),
            pid: 100,
            tid: 100,
            frame_table: GeckoFrameTable { address: vec![-1, -1, -1], func: vec![0, 1, 2] },
            func_table: FuncTable { name: vec![0, 1, 2], file_name: vec![-1, -1, -1] },
            stack_table: StackTable {
                frame: vec![0, 1, 2],
                prefix: vec![None, Some(0), Some(0)],
            },
            samples: Samples {
                stack: vec![Some(1), Some(2), Some(1)],
                time: vec![0.001, 0.002, 0.003],
            },
            string_array: vec!["root".to_string(), "leaf_a".to_string(), "leaf_b".to_string()],
        }],
    }
    .into_profile()
}

fn assert_percentages<T>(name: &str, profile: &Profile<T>) {
    assert!(!profile.threads.is_empty());
    for thread in &profile.threads {
        let tree = flame::call_tree(thread);
        assert_call_tree_conserves(&tree.roots, tree.total_samples);

        // Root percentages and self (leaf) percentages each cover 100%.
        let total = tree.total_samples as f64;
        let root_pct: f64 =
            tree.roots.iter().map(|n| n.total_samples as f64).sum::<f64>() / total * 100.0;
        assert!((root_pct - 100.0).abs() < 1e-9, "{name}: roots cover {root_pct}%");

        let self_pct = total_self(&tree.roots) as f64 / total * 100.0;
        assert!((self_pct - 100.0).abs() < 1e-9, "{name}: self covers {self_pct}%");
    }
}

#[test]
fn percentages_account_for_all_samples() {
    assert_percentages("consistency.perf", &load(CONSISTENCY_PERF));
    assert_percentages("mini.perf", &load(MINI_PERF));
    assert_percentages("weighted.perf", &load(WEIGHTED_PERF));
    assert_percentages("mini.perf.json", &mini_json());
    assert_percentages("mini.gecko.json", &mini_gecko());
}

fn check(node: &CallNode) {
    let children: u64 = node.children.iter().map(|c| c.total_samples).sum();
    assert_eq!(node.self_samples + children, node.total_samples, "node conservation violated");
    node.children.iter().for_each(check);
}

/// For every node the own leaf samples and the children's samples make up the node's,
/// and the roots cover every sample exactly once.
fn assert_call_tree_conserves(roots: &[CallNode], total: u64) {
    roots.iter().for_each(check);
    let root_total: u64 = roots.iter().map(|n| n.total_samples).sum();
    assert_eq!(root_total, total, "roots must cover every sample");
}

fn total_self(nodes: &[CallNode]) -> u64 {
    nodes.iter().map(|n| n.self_samples + total_self(&n.children)).sum()
}

#[test]
fn brick_sample_counts_and_nesting_match_stacks() {
    let profile = load(CONSISTENCY_PERF);

    for thread in &profile.threads {
        let bricks = flame::layout(thread);

        // The bricks at depth `d` together account for every sample at least `d` deep.
        let max_depth = thread.max_depth();
        for d in 1..=max_depth {
            let span_samples: u64 =
                bricks.iter().filter(|b| b.depth == d).map(|b| b.samples).sum();
            let deep_enough = thread.samples.iter().filter(|s| s.stack.len() >= d).count() as u64;
            assert_eq!(span_samples, deep_enough, "depth {d} sample accounting");
        }

        // Every brick above the first row lies within exactly one brick of the row
        // below.
        for child in bricks.iter().filter(|b| b.depth >= 2) {
            let parents = bricks
                .iter()
                .filter(|p| p.depth == child.depth - 1)
                .filter(|p| {
                    p.start <= child.start && p.start + p.width >= child.start + child.width
                })
                .count();
            assert_eq!(parents, 1, "each span has exactly one parent span");
        }
    }
}

#[test]
fn bricks_are_listed_by_their_ends() {
    let profile = load(MINI_PERF);
    let bricks = flame::layout(&profile.threads[0]);
    let shape: Vec<(usize, u64, u64, u64)> =
        bricks.iter().map(|b| (b.depth, b.start, b.width, b.samples)).collect();
    assert_eq!(shape, [(2, 0, 1, 1), (2, 1, 1, 1), (2, 2, 1, 1), (1, 0, 3, 3)]);
}

#[test]
fn flat_profile_agrees_with_the_call_tree() {
    for text in [CONSISTENCY_PERF, MINI_PERF, WEIGHTED_PERF] {
        for thread in &load(text).threads {
            let paths = tree_paths(thread);
            let rows = flame::flat_profile(thread);
            for row in &rows {
                let by_path: u64 = paths
                    .iter()
                    .filter(|(path, _)| path.last() == Some(&row.key))
                    .map(|(_, counts)| counts.1)
                    .sum();
                assert_eq!(row.self_events, by_path, "{}", row.key);
                assert!(row.self_events <= row.total_events);
                assert!(row.total_events <= thread.event_count());
            }
            let all: u64 = rows.iter().map(|r| r.self_events).sum();
            assert_eq!(all, thread.event_count());
        }
    }
}

#[test]
fn recursion_counts_once_per_sample() {
    let profile = load(CONSISTENCY_PERF);
    let app = thread(&profile, 100, 100);
    let rows = flame::flat_profile(app);
    let alpha = rows.iter().find(|r| r.key == "alpha").unwrap();
    assert_eq!((alpha.self_events, alpha.total_events), (2, 3));
    assert_eq!(alpha.self_in, [0, 1]);
    assert_eq!(alpha.total_in, [0, 1, 2]);
}

#[test]
fn flat_profile_lists_the_hottest_first() {
    let profile = load(CONSISTENCY_PERF);
    let rows = flame::flat_profile(thread(&profile, 100, 100));
    let keys: Vec<&str> = rows.iter().map(|r| r.key.as_str()).collect();
    assert_eq!(keys, ["gamma", "alpha", "0x00000000000000a0", "beta", "main"]);
}

#[test]
fn siblings_are_listed_by_weight_and_then_by_frame() {
    let profile = load(CONSISTENCY_PERF);
    let app = thread(&profile, 100, 100);
    let tree = flame::call_tree(app);
    let names: Vec<&str> =
        tree.roots[0].children.iter().map(|n| app.key(n.frame)).collect();
    // alpha and gamma weigh the same; alpha was interned first.
    assert_eq!(names, ["alpha", "gamma", "0x00000000000000a0"]);
}

#[test]
fn chart_agrees_with_the_call_tree() {
    for text in [CONSISTENCY_PERF, MINI_PERF, WEIGHTED_PERF] {
        for thread in &load(text).threads {
            let mut sums: BTreeMap<Vec<String>, u64> = BTreeMap::new();
            for brick in flame::layout(thread) {
                let stack = &thread.samples[brick.start as usize].stack;
                let path: Vec<String> = stack
                    .iter()
                    .rev()
                    .take(brick.depth)
                    .map(|&id| thread.key(id).to_string())
                    .collect();
                *sums.entry(path).or_default() += brick.samples;
            }
            let totals: BTreeMap<Vec<String>, u64> =
                tree_paths(thread).into_iter().map(|(path, counts)| (path, counts.0)).collect();
            assert_eq!(sums, totals);
        }
    }
}

#[test]
fn times_do_not_change_the_chart() {
    let before = load(WEIGHTED_PERF);
    let after = load(WEIGHTED_PERF).map_times(|seconds: String| seconds.parse::<f64>().unwrap());
    for (a, b) in before.threads.iter().zip(&after.threads) {
        assert_eq!(flame::layout(a), flame::layout(b));
        assert_eq!((a.label(), a.event_count()), (b.label(), b.event_count()));
    }
}

#[test]
fn empty_tree() {
    let tree = CallTree::default();
    assert!(tree.roots.is_empty());
    assert_eq!(tree.total_samples, 0);
}
