//! Reading Gecko documents.

use flamegraph_viewer::parsers::gecko::{
    flexible_id, FuncTable, GeckoFrameTable, GeckoMeta, GeckoProfile, GeckoThread, IdError, JsonId,
    SampleUnits, Samples, StackTable,
};

fn meta(unit: Option<&str>) -> GeckoMeta {
    GeckoMeta { sample_units: Some(SampleUnits { time: unit.map(|u| u.to_string()) }) }
}

fn strings(list: &[&str]) -> Vec<String> {
    list.iter().map(|s| s.to_string()).collect()
}

fn thread() -> GeckoThread<u32> {
    GeckoThread {
        name: Some(String::new()),
        pid: 7,
        tid: 8,
        frame_table: GeckoFrameTable { address: vec![255, -1, -1], func: vec![0, 1, 9] },
        func_table: FuncTable { name: vec![0, 1], file_name: vec![2, -1] },
        stack_table: StackTable {
            // Node 3 points at itself and node 4 beyond the table.
            frame: vec![0, 1, 2, 1, 1],
            prefix: vec![None, Some(0), Some(1), Some(3), Some(99)],
        },
        samples: Samples {
            stack: vec![Some(1), None, Some(2), Some(3), Some(4), Some(50)],
            time: vec![1, 2, 3, 4, 5, 6, 7],
        },
        string_array: strings(&["main", "inner", "main.rs"]),
    }
}

#[test]
fn units_of_time() {
    assert_eq!(meta(Some("ns")).time_multiplier(), 1);
    assert_eq!(meta(Some("us")).time_multiplier(), 1_000);
    assert_eq!(meta(Some("µs")).time_multiplier(), 1_000);
    assert_eq!(meta(Some("ms")).time_multiplier(), 1_000_000);
    assert_eq!(meta(Some("s")).time_multiplier(), 1_000_000_000);
    assert_eq!(meta(Some("fortnight")).time_multiplier(), 1_000_000);
    assert_eq!(meta(None).time_multiplier(), 1_000_000);
    assert_eq!(GeckoMeta { sample_units: None }.time_multiplier(), 1_000_000);
}

#[test]
fn frames_come_from_the_tables() {
    let thread = thread();
    let main = thread.frame_at(0);
    assert_eq!(main.ip, "0xff");
    assert_eq!(main.symbol.as_deref(), Some("main"));
    assert_eq!(main.dso.as_deref(), Some("main.rs"));
    let inner = thread.frame_at(1);
    assert_eq!(inner.ip, "inner");
    assert_eq!(inner.symbol.as_deref(), Some("inner"));
    assert_eq!(inner.dso, None);
    // A function beyond the table has no name.
    let lost = thread.frame_at(2);
    assert_eq!((lost.ip.as_str(), lost.symbol, lost.dso), ("", None, None));
    // A frame beyond the table is one of the first function.
    assert_eq!(thread.frame_at(77).symbol.as_deref(), Some("main"));
}

#[test]
fn stacks_are_walked_to_the_root() {
    let doc = GeckoProfile { meta: meta(None), threads: vec![thread()] };
    let profile = doc.into_profile();
    let t = &profile.threads[0];
    assert_eq!((t.pid, t.tid, t.name.as_deref()), (7, 8, None));
    assert_eq!(t.label(), "7/8");
    let stacks: Vec<Vec<&str>> = t
        .samples
        .iter()
        .map(|s| s.stack.iter().map(|&id| t.key(id)).collect())
        .collect();
    let expected: Vec<Vec<&str>> = vec![
        vec!["inner", "main"],
        vec![],
        vec!["", "inner", "main"],
        vec!["inner"],
        vec!["inner"],
        vec![],
        vec![],
    ];
    assert_eq!(stacks, expected);
    let times: Vec<u32> = t.samples.iter().map(|s| s.timestamp_ns).collect();
    assert_eq!(times, [1, 2, 3, 4, 5, 6, 7]);
    assert_eq!(t.event_count(), 7);
}

#[test]
fn threads_share_one_frame_table() {
    let doc = GeckoProfile { meta: meta(None), threads: vec![thread(), thread()] };
    let profile = doc.into_profile();
    // The same ids twice are still two threads.
    assert_eq!(profile.threads.len(), 2);
    assert_eq!(profile.threads[0].frames.len(), 3);
    assert_eq!(profile.threads[1].frames.len(), 3);
    assert_eq!(profile.threads[0].samples[0].stack, profile.threads[1].samples[0].stack);
}

#[test]
fn ids_may_be_numbers_or_texts() {
    assert_eq!(flexible_id(&JsonId::Number(Some(5))), Ok(5));
    assert_eq!(flexible_id(&JsonId::Text("42".to_string())), Ok(42));
    assert_eq!(flexible_id(&JsonId::Null), Ok(0));
    assert_eq!(flexible_id(&JsonId::Number(None)), Err(IdError::NotUnsigned));
    assert_eq!(flexible_id(&JsonId::Text("x".to_string())), Err(IdError::NotANumber));
    assert_eq!(flexible_id(&JsonId::Other), Err(IdError::UnexpectedType));
}
