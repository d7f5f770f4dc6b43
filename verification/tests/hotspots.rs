//! The `hotspots` report.

use flamegraph_viewer::flame::{flat_profile, FunctionStat};
use flamegraph_viewer::hotspots::{
    json_function, json_report, json_string, json_thread, list_thread, list_threads, more_line,
    overview, overview_line, parse_args, report_line, select_threads, table_line, table_lines,
    table_rows, thread_title, tree_line, tree_rows, Layout, Share, ThreadListing, TreeRow,
};
use flamegraph_viewer::parsers::{perf_script, Options};
use flamegraph_viewer::profile::Profile;

const TEXT: &str = "\
app 1/1 1.0: 60 c:
  1 hot (l)
  9 main (l)

app 1/1 2.0: 30 c:
  2 warm (l)
  8 mid (l)
  9 main (l)

app 1/1 3.0: 9 c:
  3 cold (l)
  9 main (l)

app 1/1 4.0: 1 c:
  4 start (l)

idle 1/2 1.0: 7 c:
  5 sleep (l)
";

fn load() -> Profile<String> {
    perf_script::parse_str(TEXT, Options::default())
}

fn args(list: &[&str]) -> Vec<String> {
    list.iter().map(|s| s.to_string()).collect()
}

fn refused(list: &[&str]) -> String {
    match parse_args(&args(list)) {
        Ok(_) => panic!("accepted"),
        Err(text) => text,
    }
}

#[test]
fn arguments_have_defaults() {
    let a = parse_args(&args(&["out.perf"])).ok().unwrap();
    assert_eq!(a.path, "out.perf");
    assert_eq!(a.layout, Layout::Table);
    assert_eq!(a.top, 20);
    assert_eq!(a.thread, None);
    assert!(!a.all_threads);
    assert_eq!(a.min_pct, None);
    assert!(!a.include_offset);
}

#[test]
fn arguments_are_read() {
    let a = parse_args(&args(&[
        "-f", "tree", "-n", "5", "out.perf", "-t", "3", "-a", "-m", "2.5", "--offset",
    ]))
    .ok()
    .unwrap();
    assert_eq!(a.path, "out.perf");
    assert_eq!(a.layout, Layout::Tree);
    assert_eq!(a.top, 5);
    assert_eq!(a.thread, Some(3));
    assert!(a.all_threads);
    assert_eq!(a.min_pct.as_deref(), Some("2.5"));
    assert!(a.include_offset);
    let b = parse_args(&args(&["--format", "json", "--top", "0", "x", "--min-pct", "1e-3", "--all"]))
        .ok()
        .unwrap();
    assert_eq!((b.layout, b.top, b.all_threads), (Layout::Json, 0, true));
}

#[test]
fn wrong_arguments_are_refused() {
    assert_eq!(refused(&[]), "a profile path is required");
    assert_eq!(refused(&["a", "b"]), "unexpected argument: b");
    assert_eq!(refused(&["a", "--top"]), "--top needs a value");
    assert_eq!(refused(&["a", "-m"]), "-m needs a value");
    assert_eq!(refused(&["a", "--top", "x"]), "--top needs a number");
    assert_eq!(refused(&["a", "--thread", "-1"]), "--thread needs an index");
    assert_eq!(refused(&["a", "--min-pct", "much"]), "--min-pct needs a number");
    assert_eq!(refused(&["a", "--format", "svg"]), "unknown format: svg");
    assert_eq!(refused(&["a", "--help"]), "show performance hot spots in a profile");
    assert_eq!(refused(&["-h", "--top"]), "show performance hot spots in a profile");
}

#[test]
fn threads_are_selected() {
    let order = vec![2, 0, 1];
    assert_eq!(select_threads(&order, Some(7), true), [7]);
    assert_eq!(select_threads(&order, None, true), [2, 0, 1]);
    assert_eq!(select_threads(&order, None, false), [2]);
    assert!(select_threads(&vec![], None, false).is_empty());
}

#[test]
fn table_shows_the_top_rows() {
    let rows = flat_profile(&load().threads[0]);
    let keys: Vec<&str> = rows.iter().map(|r| r.key.as_str()).collect();
    assert_eq!(keys, ["hot", "warm", "cold", "start", "main", "mid"]);
    assert_eq!(shown(Some(0), 20), ["hot", "warm", "cold", "start", "main", "mid"]);
    assert_eq!(shown(Some(9), 20), ["hot", "warm", "cold"]);
    assert_eq!(shown(Some(10), 20), ["hot", "warm"]);
    assert_eq!(shown(Some(0), 2), ["hot", "warm"]);
    assert!(shown(None, 20).is_empty());
}

fn shown(least: Option<u64>, top: usize) -> Vec<String> {
    let rows = flat_profile(&load().threads[0]);
    table_rows(rows, least, top).into_iter().map(|r| r.key).collect()
}

fn written(listing: &ThreadListing, digits: usize) -> Vec<Share> {
    let pct = |n: u64| format!("{:.digits$}", n as f64 / listing.events as f64 * 100.0);
    listing
        .rows
        .iter()
        .map(|r| Share { self_pct: pct(r.self_events), total_pct: pct(r.total_events) })
        .collect()
}

#[test]
fn json_holds_the_same_data_as_the_table() {
    let profile = load();
    let selected = vec![0, 99];
    for (least, top) in [(Some(0), 20), (Some(10), 20), (Some(0), 3), (None, 20)] {
        let table = list_thread(&profile, 0, least, top).unwrap();
        let lines = table_lines(&table, &written(&table, 1), "1.0");
        assert_eq!(lines[0], thread_title(0, &profile.threads[0].label(), 100));
        assert_eq!(lines[1], "  self%  total%        self  function");

        let listings = list_threads(&profile, &selected, &vec![least, least], top);
        assert_eq!(listings.len(), 1);
        let shares: Vec<Vec<Share>> = listings.iter().map(|l| written(l, 2)).collect();
        let report = json_report(4, 107, &listings, &shares);
        let value: serde_json::Value = serde_json::from_str(&report).unwrap();
        let functions = value["threads"][0]["functions"].as_array().unwrap();
        if functions.is_empty() {
            assert_eq!(lines[2..], ["  (no function above --min-pct 1.0%)".to_string()]);
            continue;
        }
        assert_eq!(lines.len(), 2 + functions.len());
        for (line, function) in lines[2..].iter().zip(functions) {
            let words: Vec<&str> = line.split_whitespace().collect();
            assert_eq!(words[2], function["self"].to_string());
            assert_eq!(words[3], function["function"].as_str().unwrap());
        }
    }
    assert!(list_thread(&profile, 99, Some(0), 20).is_none());
}

#[test]
fn listing_gives_shares_with_each_function() {
    let profile = load();
    let listing = list_thread(&profile, 0, Some(0), 1).unwrap();
    assert_eq!((listing.index, listing.events), (0, 100));
    let lines = table_lines(&listing, &written(&listing, 1), "0.0");
    assert_eq!(lines[2..], [format!("  {:>5}  {:>6}  {:>10}  {}", "60.0", "60.0", 60, "hot")]);
}

fn outline(least: Option<u64>, top: usize) -> Vec<(usize, String, u64, u64)> {
    let profile = load();
    let thread = &profile.threads[0];
    let rows: Vec<TreeRow> = tree_rows(thread, least, top);
    rows.iter()
        .map(|r| (r.depth, thread.key(r.frame).to_string(), r.total_events, r.self_events))
        .collect()
}

fn row(depth: usize, key: &str, total: u64, own: u64) -> (usize, String, u64, u64) {
    (depth, key.to_string(), total, own)
}

#[test]
fn tree_is_pruned_by_events() {
    assert_eq!(
        outline(Some(0), 20),
        [
            row(0, "main", 99, 0),
            row(1, "hot", 60, 60),
            row(1, "mid", 30, 0),
            row(2, "warm", 30, 30),
            row(1, "cold", 9, 9),
            row(0, "start", 1, 1),
        ]
    );
    assert_eq!(
        outline(Some(10), 20),
        [
            row(0, "main", 99, 0),
            row(1, "hot", 60, 60),
            row(1, "mid", 30, 0),
            row(2, "warm", 30, 30),
        ]
    );
    assert!(outline(None, 20).is_empty());
}

#[test]
fn tree_is_pruned_by_breadth() {
    assert_eq!(outline(Some(0), 1), [row(0, "main", 99, 0), row(1, "hot", 60, 60)]);
    assert!(outline(Some(0), 0).is_empty());
}

#[test]
fn overview_lists_the_busiest() {
    let profile = load();
    let order = profile.threads_by_samples();
    let entries = overview(&profile, &order);
    assert_eq!(entries.len(), 2);
    assert_eq!(entries[0].index, 0);
    assert_eq!(entries[0].events, 100);
    assert_eq!(entries[0].label, "app [1/1]");
    assert_eq!(entries[0].hottest, "hot");
    assert_eq!(
        overview_line(&entries[0], "93.5"),
        "  [0]  93.5%         100 ev  app [1/1]  hot:hot"
    );
    assert_eq!(
        overview_line(&entries[1], "6.5"),
        "  [1]   6.5%           7 ev  idle [1/2]  hot:sleep"
    );
}

#[test]
fn overview_takes_any_order() {
    let profile = load();
    let entries = overview(&profile, &vec![1, 0, 1]);
    let listed: Vec<(usize, u64)> = entries.iter().map(|e| (e.index, e.events)).collect();
    assert_eq!(listed, [(1, 7), (0, 100), (1, 7)]);
    assert!(overview(&profile, &vec![]).is_empty());
}

#[test]
fn overview_stops_at_eight() {
    let mut text = String::new();
    for tid in 0..10 {
        text.push_str(&format!("t 1/{tid} 1.0: 2 c:\n  1 f (l)\n\n"));
    }
    let profile = perf_script::parse_str(&text, Options::default());
    let order = profile.threads_by_samples();
    assert_eq!(overview(&profile, &order).len(), 8);
    assert_eq!(more_line(order.len() - 8), "  ... 2 more (use --all)");
}

#[test]
fn lines_are_aligned() {
    assert_eq!(
        report_line(4, 107, 2, "3.00s"),
        "profile: 4 samples, 107 events, 2 threads, 3.00s"
    );
    assert_eq!(thread_title(3, "app [1/1]", 100), "=== thread [3] app [1/1] — 100 events ===");
    assert_eq!(
        table_line("60.0", "100.0", 60, "hot"),
        format!("  {:>5.1}  {:>6.1}  {:>10}  {}", 60.0, 100.0, 60, "hot")
    );
    assert_eq!(
        tree_line("99.0", "0.0", 3, "mid"),
        format!("  {:>6.1}  {:>5.1}  {:indent$}{}", 99.0, 0.0, "", "mid", indent = 6)
    );
}

#[test]
fn json_strings_are_escaped() {
    assert_eq!(json_string("plain"), "\"plain\"");
    assert_eq!(json_string("a\"b\\c\nd\te"), "\"a\\\"b\\\\c\\nd\\te\"");
    assert_eq!(json_string("\u{1}\u{1f}\r"), "\"\\u0001\\u001f\\u000d\"");
    assert_eq!(json_string("é…"), "\"é…\"");
}

#[test]
fn json_reads_back() {
    for s in ["", "plain", "a\"b\\c\nd\te", "\u{0}\u{b}\r\u{1f}", "std::vec<T>::f(\"x\")", "é…\u{7f}"] {
        let back: String = serde_json::from_str(&json_string(s)).unwrap();
        assert_eq!(back, s);
    }
}

#[test]
fn json_report_is_a_document() {
    let row = FunctionStat {
        key: "f(\"x\")".to_string(),
        self_events: 60,
        total_events: 100,
        self_in: vec![],
        total_in: vec![],
    };
    assert_eq!(
        json_function(&row, "60.00", "100.00"),
        "{\"function\":\"f(\\\"x\\\")\",\"self\":60,\"total\":100,\"self_pct\":60.00,\"total_pct\":100.00}"
    );
    let first = ThreadListing {
        index: 2,
        label: "app [1/1]".to_string(),
        events: 100,
        rows: vec![row.clone(), row],
    };
    let second = ThreadListing { index: 0, label: "b".to_string(), events: 0, rows: vec![] };
    let share = |own: &str, all: &str| Share { self_pct: own.to_string(), total_pct: all.to_string() };
    let shares = vec![vec![share("60.00", "100.00"), share("0.00", "0.00")], vec![]];
    assert_eq!(
        json_thread(&second, &shares[1]),
        "{\"index\":0,\"label\":\"b\",\"events\":0,\"functions\":[]}"
    );
    let report = json_report(4, 107, &vec![first, second], &shares);
    let value: serde_json::Value = serde_json::from_str(&report).unwrap();
    assert_eq!(value["samples"], 4);
    assert_eq!(value["events"], 107);
    assert_eq!(value["threads"][0]["index"], 2);
    assert_eq!(value["threads"][0]["functions"][0]["function"], "f(\"x\")");
    assert_eq!(value["threads"][0]["functions"][1]["self_pct"], 0.0);
    assert_eq!(value["threads"][1]["label"], "b");
    assert_eq!(json_report(0, 0, &vec![], &vec![]), "{\"samples\":0,\"events\":0,\"threads\":[]}");
}
