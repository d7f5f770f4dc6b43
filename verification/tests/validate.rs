//! The validator.

use flamegraph_viewer::flame::CallNode;
use flamegraph_viewer::parsers::perf_json::{build, PerfData, PerfFrame, PerfSample};
use flamegraph_viewer::parsers::{perf_script, Format, Options};
use flamegraph_viewer::profile::{Frame, Profile};
use flamegraph_viewer::validate::{
    check, check_conservation, frame_label, parse_args, parse_format, summary, validate,
};

fn args(list: &[&str]) -> Vec<String> {
    list.iter().map(|s| s.to_string()).collect()
}

fn refused(list: &[&str]) -> String {
    match parse_args(&args(list)) {
        Ok(_) => panic!("accepted"),
        Err(text) => text,
    }
}

fn load(text: &str) -> Profile<String> {
    perf_script::parse_str(text, Options::default())
}

fn json(chains: &[&[&str]]) -> Profile<u32> {
    build(PerfData {
        samples: chains
            .iter()
            .map(|chain| PerfSample {
                timestamp: 0,
                pid: 1,
                tid: 2,
                comm: Some("app".to_string()),
                callchain: chain
                    .iter()
                    .map(|s| PerfFrame { ip: s.to_string(), symbol: None, dso: None })
                    .collect(),
            })
            .collect(),
    })
}

fn node(total_samples: u64, self_samples: u64, children: Vec<CallNode>) -> CallNode {
    CallNode { frame: 0, total_samples, self_samples, children }
}

#[test]
fn format_names() {
    assert_eq!(parse_format("perf-json"), Some(Format::PerfJson));
    assert_eq!(parse_format("perf_json"), Some(Format::PerfJson));
    assert_eq!(parse_format("perf-script"), Some(Format::PerfScript));
    assert_eq!(parse_format("perf_script"), Some(Format::PerfScript));
    assert_eq!(parse_format("gecko"), Some(Format::Gecko));
    assert_eq!(parse_format("Gecko"), None);
}

#[test]
fn arguments() {
    let request = parse_args(&args(&["a.perf"])).ok().unwrap();
    assert_eq!((request.path.as_str(), request.format), ("a.perf", None));
    let request = parse_args(&args(&["-f", "gecko", "a", "--format", "perf-json"])).ok().unwrap();
    assert_eq!((request.path.as_str(), request.format), ("a", Some(Format::PerfJson)));

    assert_eq!(refused(&[]), "usage: validate <path> [--format perf-json|perf-script|gecko]");
    assert_eq!(refused(&["a", "b"]), "unexpected argument: b");
    assert_eq!(refused(&["a", "--format"]), "--format requires a value");
    assert_eq!(refused(&["--format", "svg", "a"]), "unknown format: svg");
}

#[test]
fn conservation() {
    assert_eq!(check_conservation(&vec![node(3, 1, vec![node(2, 2, vec![])])], "x"), Ok(()));
    assert_eq!(
        check_conservation(&vec![node(3, 1, vec![node(2, 1, vec![])]), node(1, 0, vec![])], "t"),
        Err("thread t: span sample counts do not conserve (1 self + 0 children != 2 total)"
            .to_string())
    );
    assert_eq!(
        check_conservation(&vec![node(9, 1, vec![node(2, 2, vec![]), node(3, 3, vec![])])], "t"),
        Err("thread t: span sample counts do not conserve (1 self + 5 children != 9 total)"
            .to_string())
    );
}

#[test]
fn checks() {
    assert_eq!(check(&json(&[]), true), Err("profile contains no samples".to_string()));
    assert_eq!(check(&json(&[&[], &[]]), true), Err("every sample has an empty stack".to_string()));
    assert_eq!(check(&json(&[&["a"]]), false), Err("found a non-finite timestamp".to_string()));
    assert_eq!(
        check(&json(&[&["a"], &[]]), true),
        Err("thread app [1/2]: roots cover 1 events, expected 2".to_string())
    );
    assert_eq!(check(&json(&[&["b", "a"], &["a"]]), true), Ok(()));
}

#[test]
fn script_profiles_pass() {
    let profile = load("a 1/1 1.0: 2 c:\n  1 f (l)\n  2 g (l)\n\na 1/1 2.0: 3 c:\n  2 g (l)\n");
    assert_eq!(check(&profile, true), Ok(()));
}

#[test]
fn summaries() {
    let mut text = String::new();
    for tid in 0..12 {
        text.push_str(&format!("t 1/{tid} 1.0: 2 c:\n  1 leaf (l)\n  2 mid (l)\n  3 root (l)\n\n"));
    }
    text.push_str("t 1/7 2.0: 1 c:\n  1 leaf (l)\n");
    let lines = summary("dir/a.perf", &load(&text));
    assert_eq!(lines[0], "OK   dir/a.perf");
    assert_eq!(lines[1], "  samples:    13");
    assert_eq!(lines[2], "  events:     25");
    assert_eq!(lines[3], "  threads:    12");
    assert_eq!(lines[4], "  max depth:  3");
    assert_eq!(lines[5], "  threads by sample count:");
    assert_eq!(lines[6], "         2 samples  t [1/7]");
    assert_eq!(lines[7], "         1 samples  t [1/0]");
    assert_eq!(lines[15], "         1 samples  t [1/9]");
    assert_eq!(lines[16], "    ... and 2 more");
    assert_eq!(lines[17], "  example:    leaf ... root");
    assert_eq!(lines.len(), 18);

    let few = summary("b", &load("t 1/1 1.0: c:\n  1 f (l)\n"));
    assert_eq!(few.len(), 8);
    assert_eq!(few[7], "  example:    f ... f");
}

#[test]
fn validation_checks_before_it_sums_up() {
    let profile = json(&[&["a"]]);
    assert_eq!(validate("p", &profile, true).unwrap()[0], "OK   p");
    assert_eq!(
        validate("p", &profile, false),
        Err("found a non-finite timestamp".to_string())
    );
}

#[test]
fn frame_labels() {
    let frame = |symbol: Option<&str>| Frame {
        ip: "0x1".to_string(),
        symbol: symbol.map(|s| s.to_string()),
        dso: None,
    };
    assert_eq!(frame_label(&frame(Some("main"))), "main");
    assert_eq!(frame_label(&frame(Some(""))), "0x1");
    assert_eq!(frame_label(&frame(None)), "0x1");
}
