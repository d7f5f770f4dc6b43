//! The viewer's state and texts.

use flamegraph_viewer::flame::FunctionStat;
use flamegraph_viewer::viewer::{
    cell_label, drop_error, drop_prompt, empty_error, find_row, fit_label, highlight, info_panel,
    name_order, overview_header, palette_slot, thread_header, timing_summary, toggle_view, top_line,
    top_table, truncate_name, window_title, Highlight, OverviewInput, ShownTimes, ThreadHeader,
    ThreadView, TopSort, ViewMode,
};

const STILL: OverviewInput = OverviewInput {
    right: false,
    left: false,
    down: false,
    up: false,
    open: false,
    clicked: None,
};

fn row(key: &str) -> FunctionStat {
    FunctionStat {
        key: key.to_string(),
        self_events: 3,
        total_events: 4,
        self_in: vec![],
        total_in: vec![],
    }
}

#[test]
fn views_cycle() {
    let mut mode = ViewMode::Overview;
    let mut seen = vec![];
    for _ in 0..4 {
        seen.push(mode);
        mode = mode.next();
    }
    assert_eq!(mode, ViewMode::Overview);
    assert_eq!(
        seen,
        [ViewMode::Overview, ViewMode::FlameChart, ViewMode::FlameGraph, ViewMode::Top]
    );
    assert_eq!(ViewMode::Overview.label(), "overview (all threads)");
    assert_eq!(ViewMode::FlameChart.label(), "flame chart (time)");
    assert_eq!(ViewMode::FlameGraph.label(), "flame graph (left-heavy)");
    assert_eq!(ViewMode::Top.label(), "top functions");
}

#[test]
fn sorts_cycle() {
    assert_eq!(TopSort::SelfTime.next(), TopSort::TotalTime);
    assert_eq!(TopSort::TotalTime.next(), TopSort::Name);
    assert_eq!(TopSort::Name.next(), TopSort::SelfTime);
    assert_eq!(TopSort::SelfTime.label(), "self time");
    assert_eq!(TopSort::TotalTime.label(), "total time");
    assert_eq!(TopSort::Name.label(), "name");
}

#[test]
fn keys_toggle_the_view() {
    let s = TopSort::SelfTime;
    assert_eq!(toggle_view(ViewMode::Top, s, false, false, false), (ViewMode::Top, s));
    assert_eq!(toggle_view(ViewMode::FlameChart, s, true, false, false), (ViewMode::FlameGraph, s));
    assert_eq!(toggle_view(ViewMode::Top, s, false, true, false), (ViewMode::Overview, s));
    assert_eq!(toggle_view(ViewMode::Top, s, false, false, true), (ViewMode::Top, TopSort::TotalTime));
    assert_eq!(toggle_view(ViewMode::FlameChart, s, false, false, true), (ViewMode::FlameChart, s));
    // The sort key sees the view that the other keys lead to.
    assert_eq!(
        toggle_view(ViewMode::FlameGraph, s, true, false, true),
        (ViewMode::Top, TopSort::TotalTime)
    );
    assert_eq!(toggle_view(ViewMode::Top, s, true, false, true), (ViewMode::Overview, s));
}

#[test]
fn threads_are_switched_round_the_end() {
    let mut view = ThreadView::new(vec![4, 2, 9]);
    assert_eq!(view.selected(), Some(4));
    view.switch_thread(false, true);
    assert_eq!(view.selected(), Some(9));
    view.switch_thread(true, false);
    assert_eq!(view.cursor, 0);
    view.switch_thread(true, true);
    assert_eq!(view.cursor, 1);
    view.switch_thread(false, false);
    assert_eq!(view.cursor, 1);

    let mut one = ThreadView::new(vec![7]);
    one.switch_thread(true, false);
    assert_eq!(one.cursor, 0);
    let empty = ThreadView::new(vec![]);
    assert_eq!(empty.selected(), None);
}

#[test]
fn arrows_move_the_selection() {
    let mut view = ThreadView::new((0..10).collect());
    let go = |view: &mut ThreadView, cols: usize, input: OverviewInput| {
        view.overview_input(ViewMode::Overview, cols, input)
    };
    assert_eq!(go(&mut view, 4, OverviewInput { right: true, ..STILL }), ViewMode::Overview);
    assert_eq!(view.cursor, 1);
    go(&mut view, 4, OverviewInput { down: true, ..STILL });
    assert_eq!(view.cursor, 5);
    go(&mut view, 4, OverviewInput { down: true, right: true, ..STILL });
    assert_eq!(view.cursor, 9);
    go(&mut view, 4, OverviewInput { right: true, ..STILL });
    assert_eq!(view.cursor, 9);
    go(&mut view, 0, OverviewInput { up: true, ..STILL });
    assert_eq!(view.cursor, 8);
    go(&mut view, 20, OverviewInput { up: true, ..STILL });
    assert_eq!(view.cursor, 0);
    go(&mut view, 4, OverviewInput { left: true, ..STILL });
    assert_eq!(view.cursor, 0);
}

#[test]
fn threads_are_opened() {
    let mut view = ThreadView::new(vec![0, 1, 2]);
    let open = OverviewInput { open: true, ..STILL };
    let click = OverviewInput { clicked: Some(2), right: true, ..STILL };
    assert_eq!(view.overview_input(ViewMode::Overview, 1, open), ViewMode::FlameChart);
    assert_eq!(view.cursor, 0);
    assert_eq!(view.overview_input(ViewMode::Overview, 1, click), ViewMode::FlameChart);
    assert_eq!(view.cursor, 2);
    // Elsewhere the keys mean something else.
    let right = OverviewInput { left: true, open: true, ..STILL };
    assert_eq!(view.overview_input(ViewMode::FlameGraph, 1, right), ViewMode::FlameGraph);
    assert_eq!(view.cursor, 2);
    let mut empty = ThreadView::new(vec![]);
    assert_eq!(empty.overview_input(ViewMode::Overview, 1, open), ViewMode::Overview);
}

#[test]
fn names_are_truncated() {
    assert_eq!(truncate_name("function", 8), "function");
    assert_eq!(truncate_name("function", 7), "functi…");
    assert_eq!(truncate_name("function", 2), "f…");
    assert_eq!(truncate_name("function", 1), "f");
    assert_eq!(truncate_name("function", 0), "");
    assert_eq!(truncate_name("", 0), "");
    assert_eq!(truncate_name("äöü", 2), "ä…");
}

#[test]
fn labels_are_fitted() {
    assert_eq!(fit_label("function", 8), "function");
    assert_eq!(fit_label("function", 7), "funct..");
    assert_eq!(fit_label("function", 3), "f..");
    assert_eq!(fit_label("function", 2), "..");
    assert_eq!(fit_label("function", 1), "f");
    assert_eq!(fit_label("function", 0), "");
}

#[test]
fn colours_stay_in_the_palette() {
    assert_eq!(palette_slot(0), 0);
    assert_eq!(palette_slot(63), 63);
    assert_eq!(palette_slot(64), 0);
    assert_eq!(palette_slot(u64::MAX), 63);
}

#[test]
fn bricks_are_highlighted() {
    assert_eq!(highlight(true, Some("f"), "f"), Highlight::Hovered);
    assert_eq!(highlight(false, Some("f"), "f"), Highlight::Group);
    assert_eq!(highlight(false, Some("g"), "f"), Highlight::Plain);
    assert_eq!(highlight(false, None, "f"), Highlight::Plain);
}

#[test]
fn table_is_sorted_by_name() {
    let rows = vec![row("b"), row("a"), row("c"), row("B")];
    assert_eq!(name_order(&rows), [3, 1, 0, 2]);
    assert_eq!(find_row(&rows, "c"), Some(2));
    assert_eq!(find_row(&rows, "d"), None);
}

#[test]
fn table_has_forty_lines() {
    let line = top_line("12.5", "1.000 ms", "2.000 ms", "function");
    assert_eq!(
        line,
        format!("  {:>5.1}  {:>10}  {:>11}  {}\n", 12.5, "1.000 ms", "2.000 ms", "function")
    );
    let long = top_line("0.0", "", "", &"x".repeat(80));
    assert!(long.ends_with(&format!("{}…\n", "x".repeat(69))));
    let lines: Vec<String> = (0..50).map(|i| format!("{i}\n")).collect();
    let table = top_table(&lines);
    assert!(table.starts_with("  self%   self time   total time  function\n0\n1\n"));
    assert!(table.ends_with("\n39\n"));
    assert_eq!(top_table(&vec![]), "  self%   self time   total time  function\n");
}

#[test]
fn headers() {
    assert_eq!(cell_label("app [1/2]", 12, 40), "app [1/2]  (12)");
    assert_eq!(cell_label("app [1/2]", 12, 5), "app …");
    assert_eq!(timing_summary("2.0 s", None), "spans 2.0 s  ·  starts at profile start");
    assert_eq!(
        timing_summary("2.0 s", Some(("1.0 s", "3.0 s"))),
        "spans 2.0 s  ·  first sample +1.0 s after profile start (profile spans 3.0 s)"
    );
    assert_eq!(
        overview_header(3, "app [1/2]"),
        "Overview — 3 threads  ·  selected: app [1/2]\n\
         arrows or click select a thread  ·  Enter / click opens it  ·  Tab cycles views"
    );
    let mut h = ThreadHeader {
        cursor: 0,
        count: 3,
        label: "app [1/2]".to_string(),
        samples: 10,
        events: 20,
        depth: 5,
        timing: "spans 1 s".to_string(),
        mode: ViewMode::FlameChart,
        sort: TopSort::Name,
        font: "13".to_string(),
    };
    assert_eq!(
        thread_header(&h),
        "Thread 1/3: app [1/2]  (10 samples, 20 events, depth 5)\n\
         spans 1 s\n\
         view: flame chart (time)  ·  Tab switch view\n\
         [ ] thread  ·  arrows pan  ·  Z/X time zoom  ·  C/V depth zoom  ·  hold Alt: sample ticks + timestamps"
    );
    h.mode = ViewMode::Top;
    assert!(thread_header(&h)
        .contains("view: top functions  ·  Tab switch view  ·  +/- font (13px)  ·  S sort (name)\n"));
}

#[test]
fn panels() {
    let times = ShownTimes {
        self_time: "1.000 ms".to_string(),
        self_pct: "30.0".to_string(),
        total_time: "2.000 ms".to_string(),
        total_pct: "40.0".to_string(),
    };
    assert_eq!(
        info_panel(&row("f"), &times),
        "f\nself:  1.000 ms (30.0%, 3 ev)\ntotal: 2.000 ms (40.0%, 4 ev)"
    );
    assert_eq!(
        drop_prompt(),
        "Drop a profile file here to open it\n\nperf script, perf JSON, or Firefox/Gecko JSON"
    );
    assert_eq!(
        drop_error("a.txt", "no such file"),
        format!("Could not open a.txt\n\nno such file\n\n{}", drop_prompt())
    );
    assert_eq!(empty_error("a.txt"), "a.txt contains no samples");
    assert_eq!(window_title("a.txt"), "flamegraph-viewer — a.txt");
}
