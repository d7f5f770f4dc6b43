//! Reading `perf script` output, line by line.

use flamegraph_viewer::parsers::perf_script::{
    clean, is_pid_tid, parse_frame_line, parse_header_line, parse_str, split_pid_tid, strip_offset,
    ScriptParser,
};
use flamegraph_viewer::parsers::Options;
use flamegraph_viewer::text::{chars_of, string_of};

fn stripped(s: &str) -> String {
    string_of(strip_offset(&chars_of(s)))
}

fn cleaned(s: &str) -> Option<String> {
    clean(&chars_of(s)).map(string_of)
}

#[test]
fn offsets_are_stripped() {
    assert_eq!(stripped("alpha+0x4"), "alpha");
    assert_eq!(stripped("alpha+0xDEADbeef"), "alpha");
    assert_eq!(stripped("alpha+0x"), "alpha");
    assert_eq!(stripped("alpha"), "alpha");
    assert_eq!(stripped("+0x4"), "+0x4");
    assert_eq!(stripped("alpha+0xzz"), "alpha+0xzz");
    assert_eq!(stripped("a+0x1+0x2"), "a+0x1");
    assert_eq!(stripped("a+0x1+0xg"), "a+0x1+0xg");
}

#[test]
fn placeholders_are_dropped() {
    assert_eq!(cleaned("  main "), Some("main".to_string()));
    assert_eq!(cleaned("[unknown]"), None);
    assert_eq!(cleaned(" [unknown] "), None);
    assert_eq!(cleaned("  "), None);
    assert_eq!(cleaned("[unknown]x"), Some("[unknown]x".to_string()));
}

#[test]
fn frame_lines() {
    let options = Options::default();
    let frame = parse_frame_line(
        "\t7f3988eb7440 _start+0x0 (/usr/lib64/ld-linux-x86-64.so.2)",
        options,
    )
    .unwrap();
    assert_eq!(frame.ip, "0x7f3988eb7440");
    assert_eq!(frame.symbol.as_deref(), Some("_start"));
    assert_eq!(frame.dso.as_deref(), Some("/usr/lib64/ld-linux-x86-64.so.2"));

    let frame = parse_frame_line("  0x0xff [unknown] ([unknown])", options).unwrap();
    assert_eq!(frame.ip, "0xff");
    assert_eq!(frame.symbol, None);
    assert_eq!(frame.dso, None);
    assert_eq!(frame.key(), "0xff");

    // A symbol may hold spaces and parentheses.
    let frame = parse_frame_line("  1 f(int, char (*)()) + 1 (lib (deleted))", options).unwrap();
    assert_eq!(frame.symbol.as_deref(), Some("f(int, char (*)()) + 1 (lib"));
    assert_eq!(frame.dso.as_deref(), Some("deleted"));

    let frame = parse_frame_line("  1 main", options).unwrap();
    assert_eq!(frame.symbol.as_deref(), Some("main"));
    assert_eq!(frame.dso, None);

    let kept = parse_frame_line("  1 main+0x5 (a)", Options { include_offset: true }).unwrap();
    assert_eq!(kept.symbol.as_deref(), Some("main+0x5"));

    assert!(parse_frame_line("  deadbeef", options).is_none());
}

#[test]
fn ids_are_two_numbers() {
    assert_eq!(split_pid_tid("12/34"), Some((12, 34)));
    assert_eq!(split_pid_tid("+12/34"), Some((12, 34)));
    assert_eq!(split_pid_tid("12/"), None);
    assert_eq!(split_pid_tid("12"), None);
    assert_eq!(split_pid_tid("12/34/56"), None);
    assert!(is_pid_tid("0/0"));
    assert!(!is_pid_tid("a/b"));
}

#[test]
fn header_lines() {
    let h = parse_header_line("rg   64477/64477   26795.734316:          1 cpu/cycles/Pu:").unwrap();
    assert_eq!(h.comm.as_deref(), Some("rg"));
    assert_eq!((h.pid, h.tid, h.weight), (64477, 64477, 1));
    assert_eq!(h.seconds, "26795.734316");

    // The command may hold spaces.
    let h = parse_header_line("Web Content 5/6 [001] 1.5: 250 cycles:").unwrap();
    assert_eq!(h.comm.as_deref(), Some("Web Content"));
    assert_eq!((h.pid, h.tid, h.weight), (5, 6, 250));

    // Without a period, or with none that can be read, a sample is one event.
    assert_eq!(parse_header_line("5/6 1.5:").unwrap().weight, 1);
    assert_eq!(parse_header_line("5/6 1.5:").unwrap().comm, None);
    assert_eq!(parse_header_line("a 5/6 1.5: cycles:").unwrap().weight, 1);
    assert_eq!(parse_header_line("a 5/6 1.5: 0 cycles:").unwrap().weight, 1);

    assert!(parse_header_line("a 5 1.5: 1").is_none());
    assert!(parse_header_line("a 5/6 1.5 1").is_none());
    assert!(parse_header_line("").is_none());
}

#[test]
fn records_end_at_blank_lines_and_headers() {
    let text = "\
a 1/1 1.0: 2 x:
  1 f (l)
b 1/2 2.0: 3 x:
  2 g (l)

  3 stray (l)
c 1/3 3.0: x:

not a header
  4 lost (l)
a 1/1 4.0: x:
  1 f (l)
  garbage
  2 g (l)";
    let profile = parse_str(text, Options::default());
    let ids: Vec<(u64, u64, usize)> =
        profile.threads.iter().map(|t| (t.pid, t.tid, t.samples.len())).collect();
    assert_eq!(ids, [(1, 1, 2), (1, 2, 1)]);
    let first = &profile.threads[0];
    assert_eq!(first.name.as_deref(), Some("a"));
    let times: Vec<&str> = first.samples.iter().map(|s| s.timestamp_ns.as_str()).collect();
    assert_eq!(times, ["1.0", "4.0"]);
    let keys: Vec<&str> = first.samples[1].stack.iter().map(|&id| first.key(id)).collect();
    assert_eq!(keys, ["f", "g"]);
    assert_eq!(first.event_count(), 3);
    assert_eq!(profile.event_count(), 6);
    assert_eq!(first.frames.len(), 2);
}

#[test]
fn parts_that_a_blank_line_separates_read_apart() {
    let a = "x 1/1 1.0: 2 c:\n  1 f (l)\n  2 g (l)\n";
    let b = "x 1/1 2.0: 3 c:\n  2 g (l)\ny 2/2 3.0: 4 c:\n  3 h (l)\n";
    let count = |text: &str| parse_str(text, Options::default()).event_count();
    let samples = |text: &str| parse_str(text, Options::default()).total_samples();
    let both = format!("{a}   \n{b}");
    assert_eq!(count(&both), count(a) + count(b));
    assert_eq!(samples(&both), samples(a) + samples(b));
}

#[test]
fn lines_can_be_fed_one_by_one() {
    let text = "x 1/1 1.0: 2 c:\n  1 f+0x1 (l)\n\nx 1/1 2.0: 2 c:\r\n  1 f+0x1 (l)  \r\n";
    let mut parser = ScriptParser::new(Options::default());
    for line in text.lines() {
        parser.feed_line(line);
    }
    let profile = parser.finish();
    assert_eq!(profile.event_count(), 4);
    assert_eq!(profile.threads[0].frames.len(), 1);
    assert_eq!(profile.threads[0].label(), "x [1/1]");
}

#[test]
fn empty_text_is_an_empty_profile() {
    let profile = parse_str("", Options::default());
    assert!(profile.is_empty());
    assert_eq!(profile.threads.len(), 0);
    assert_eq!(profile.busiest_thread(), None);
}
