//! The three formats, format detection and the flame-chart layout, on one small
//! scenario: samples at 1000, 2000 and 3000 ns whose leaves alternate under one root.

use flamegraph_viewer::flame;
use flamegraph_viewer::parsers::gecko::{
    FuncTable, GeckoFrameTable, GeckoMeta, GeckoProfile, GeckoThread, SampleUnits, Samples,
    StackTable,
};
use flamegraph_viewer::parsers::perf_json::{build, PerfData, PerfFrame, PerfSample};
use flamegraph_viewer::parsers::{detect_format, perf_script, Format, Options};
use flamegraph_viewer::profile::{Profile, Thread};

const MINI_PERF: &str = "\
app 100/100 0.000001000: 1 cycles:
\t1001 leaf_a+0x4 (/bin/app)
\t1000 root+0x10 (/bin/app)

app 100/100 0.000002000: 1 cycles:
\t1002 leaf_b+0x8 (/bin/app)
\t1000 root+0x10 (/bin/app)

app 100/101 0.000002500: 1 cycles:
\t1003 idle+0x0 (/bin/app)

app 100/100 0.000003000: 1 cycles:
\t1001 leaf_a+0x4 (/bin/app)
\t1000 root+0x10 (/bin/app)
";

const MINI_PERF_JSON: &str = r#"{
  "linux-perf-json-version": 1,
  "headers": {},
  "samples": []
}"#;

const MINI_GECKO_JSON: &str = r#"{
  "meta": { "preprocessedProfileVersion": 44 },
  "threads": [{ "frameTable": {}, "stringArray": [] }]
}"#;

fn frame(ip: &str, symbol: &str) -> PerfFrame {
    PerfFrame { ip: ip.to_string(), symbol: Some(symbol.to_string()), dso: None }
}

fn sample(timestamp: f64, tid: u64, callchain: Vec<PerfFrame>) -> PerfSample<f64> {
    PerfSample { timestamp, pid: 100, tid, comm: Some("app".to_string()), callchain }
}

fn from_json() -> Profile<f64> {
    build(PerfData {
        samples: vec![
            sample(1000.0, 100, vec![frame("0x1001", "leaf_a"), frame("0x1000", "root")]),
            sample(2000.0, 100, vec![frame("0x1002", "leaf_b"), frame("0x1000", "root")]),
            sample(2500.0, 101, vec![frame("0x1003", "idle")]),
            sample(3000.0, 100, vec![frame("0x1001", "leaf_a"), frame("0x1000", "root")]),
        ],
    })
}

fn from_script() -> Profile<f64> {
    perf_script::parse_str(MINI_PERF, Options::default())
        .map_times(|seconds: String| seconds.parse::<f64>().unwrap() * 1e9)
}

fn from_gecko() -> Profile<f64> {
    let doc = GeckoProfile {
        meta: GeckoMeta {
            sample_units: Some(SampleUnits { time: Some("us".to_string()) }),
        },
        threads: vec![GeckoThread {
            name: Some("app".to_string()),
            pid: 100,
            tid: 100,
            frame_table: GeckoFrameTable { address: vec![-1, -1, -1], func: vec![0, 1, 2] },
            func_table: FuncTable { name: vec![0, 1, 2], file_name: vec![-1, -1, -1] },
            stack_table: StackTable {
                frame: vec![0, 1, 2],
                prefix: vec![None, Some(0), Some(0)],
            },
            samples: Samples {
                stack: vec![Some(1), Some(2), Some(1)],
                time: vec![1.0, 2.0, 3.0],
            },
            string_array: vec!["root".to_string(), "leaf_a".to_string(), "leaf_b".to_string()],
        }],
    };
    let to_ns = doc.meta.time_multiplier() as f64;
    doc.into_profile().map_times(|t: f64| t * to_ns)
}

/// The busiest thread of a profile.
fn busiest(profile: &Profile<f64>) -> &Thread<f64> {
    &profile.threads[profile.busiest_thread().expect("a thread")]
}

/// Every format encodes the same scenario, so the busiest thread always looks the
/// same.
fn assert_busiest_scenario(thread: &Thread<f64>) {
    assert_eq!(thread.samples.len(), 3, "busiest thread has three samples");
    let leaves: Vec<&str> =
        thread.samples.iter().map(|s| thread.key(*s.stack.first().unwrap())).collect();
    assert_eq!(leaves, ["leaf_a", "leaf_b", "leaf_a"]);
    for sample in &thread.samples {
        assert!(!sample.stack.is_empty());
        assert_eq!(thread.key(*sample.stack.last().unwrap()), "root");
    }
}

fn span_ns(thread: &Thread<f64>) -> f64 {
    match (thread.first_timestamp_ns(), thread.last_timestamp_ns()) {
        (Some(first), Some(last)) => last - first,
        _ => 0.0,
    }
}

/// The time of one sample.
fn weight(thread: &Thread<f64>, i: usize) -> f64 {
    match flame::sample_gap(i, thread.samples.len()) {
        Some((later, earlier)) => {
            thread.samples[later].timestamp_ns - thread.samples[earlier].timestamp_ns
        }
        None => 0.0,
    }
}

/// Where sample `i` starts, counted from the first sample; the end of the thread
/// where `i` is past the last one.
fn edge(thread: &Thread<f64>, i: usize) -> f64 {
    let first = thread.samples[0].timestamp_ns;
    let n = thread.samples.len();
    if i < n {
        thread.samples[i].timestamp_ns - first
    } else {
        thread.samples[n - 1].timestamp_ns + weight(thread, n - 1) - first
    }
}

fn time_in(thread: &Thread<f64>, samples: &[usize]) -> f64 {
    samples.iter().map(|&i| weight(thread, i)).sum()
}

#[test]
fn perf_json_parses() {
    let profile = from_json();
    assert_eq!(profile.threads.len(), 2, "two distinct threads");
    assert_eq!(profile.total_samples(), 4);
    assert_busiest_scenario(busiest(&profile));
}

#[test]
fn perf_script_parses() {
    let profile = from_script();
    assert_eq!(profile.threads.len(), 2, "two distinct threads");
    assert_eq!(profile.total_samples(), 4);
    assert_busiest_scenario(busiest(&profile));
}

#[test]
fn gecko_parses() {
    let profile = from_gecko();
    assert_eq!(profile.threads.len(), 1);
    assert_eq!(profile.total_samples(), 3);
    let thread = busiest(&profile);
    assert_eq!(thread.name.as_deref(), Some("app"));
    assert_busiest_scenario(thread);
}

#[test]
fn all_formats_agree_on_timing() {
    for (name, profile) in [
        ("mini.perf.json", from_json()),
        ("mini.perf", from_script()),
        ("mini.gecko.json", from_gecko()),
    ] {
        let span = span_ns(busiest(&profile));
        assert!((span - 2000.0).abs() < 1.0, "span for {name} was {span}");
    }
}

#[test]
fn format_detection() {
    assert_eq!(detect_format(Some("json"), MINI_PERF_JSON), Some(Format::PerfJson));
    assert_eq!(detect_format(Some("json"), MINI_GECKO_JSON), Some(Format::Gecko));
    // The extension `perf` means perf-script regardless of contents.
    assert_eq!(detect_format(Some("perf"), MINI_PERF), Some(Format::PerfScript));
    assert_eq!(detect_format(Some("perf"), MINI_GECKO_JSON), Some(Format::PerfScript));
    // Text that is no JSON is perf-script without the extension too.
    assert_eq!(detect_format(None, MINI_PERF), Some(Format::PerfScript));
}

#[test]
fn unknown_json_is_not_detected() {
    assert_eq!(detect_format(Some("json"), "  {\"a\": 1}"), None);
    assert_eq!(detect_format(None, "{ \"headers\": [] }"), Some(Format::PerfJson));
    assert_eq!(detect_format(None, "\n\t { \"stringArray\": [] }"), Some(Format::Gecko));
    assert_eq!(detect_format(None, ""), Some(Format::PerfScript));
}

#[test]
fn formats_have_names() {
    assert_eq!(Format::PerfJson.name(), "perf json");
    assert_eq!(Format::PerfScript.name(), "perf script");
    assert_eq!(Format::Gecko.name(), "gecko");
}

#[test]
fn layout_bottom_row_is_a_single_root_brick() {
    let profile = from_json();
    let thread = busiest(&profile);
    let bricks = flame::layout(thread);

    let root_row: Vec<_> = bricks.iter().filter(|b| b.depth == 1).collect();
    assert_eq!(root_row.len(), 1, "root is one continuous brick");

    let root = root_row[0];
    assert_eq!(thread.key(root.frame), "root");
    assert_eq!((root.start, root.width), (0, 3));
    let start = edge(thread, root.start as usize);
    let end = edge(thread, (root.start + root.width) as usize);
    assert_eq!(start, 0.0);
    // Span is 2000 ns plus the final sample's own weight (1000 ns).
    assert_eq!(end - start, 3000.0);

    let leaves: Vec<&str> =
        bricks.iter().filter(|b| b.depth == 2).map(|b| thread.key(b.frame)).collect();
    assert_eq!(leaves, ["leaf_a", "leaf_b", "leaf_a"]);
}

#[test]
fn symbol_stats_split_self_and_total() {
    let profile = from_json();
    let thread = busiest(&profile);
    let stats = flame::symbol_stats(thread);

    // root is on every stack but never the leaf: all total, no self.
    let root = stats.get("root").unwrap();
    assert_eq!(time_in(thread, &root.total_in), 3000.0);
    assert_eq!(time_in(thread, &root.self_in), 0.0);

    // leaf_a is the leaf of two samples; leaf_b of one.
    let leaf_a = stats.get("leaf_a").unwrap();
    assert_eq!(time_in(thread, &leaf_a.self_in), 2000.0);
    assert_eq!(time_in(thread, &leaf_a.total_in), 2000.0);
    let leaf_b = stats.get("leaf_b").unwrap();
    assert_eq!(time_in(thread, &leaf_b.self_in), 1000.0);

    assert!(stats.get("idle").is_none());
    assert_eq!(stats.len(), 3);
}

#[test]
fn gaps_between_samples() {
    assert_eq!(flame::sample_gap(0, 1), None);
    assert_eq!(flame::sample_gap(0, 2), Some((1, 0)));
    assert_eq!(flame::sample_gap(1, 2), Some((1, 0)));
    assert_eq!(flame::sample_gap(1, 3), Some((2, 1)));
    assert_eq!(flame::sample_gap(2, 3), Some((2, 1)));
}
