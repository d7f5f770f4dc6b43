//! The `hotspots` report: where a program spends its time, as a table, a pruned call
//! tree or JSON.
//!
//! ```text
//! hotspots <profile> [--format table|tree|json] [--top N]
//!                    [--thread N | --all] [--min-pct P] [--offset]
//! ```

use crate::flame::call_tree::{
    call_tree, has_frame, is_call_tree, is_level, is_node, law_call_tree_is_determined,
    lemma_events_through, occurs, same_nodes, CallNode, CallTree,
};
use crate::flame::functions::{
    flat_profile, is_flat_profile, law_flat_profile_is_determined, lemma_events_fit, FunctionStat,
};
use crate::flame::layout::passes;
use crate::profile::{
    opt_text, stacks_within, weight_sum, FrameId, Profile, Sample, SampleModel, Thread,
    ThreadModel,
};
use crate::text::{
    chars_of, decimal, digit_char, is_float, is_float_text, join, joined, law_decimal_reads_back,
    padded, parse_usize, parsed_number, push_decimal, push_padded, push_spaces, same_text, spaces, views,
};
use vstd::prelude::*;

verus! {

// ---------------------------------------------------------------------------
// Arguments
// ---------------------------------------------------------------------------

/// How the report is laid out.
#[derive(Debug, Clone, Copy, PartialEq, Eq, Structural)]
pub enum Layout {
    /// A flat table per thread.
    Table,
    /// A pruned call tree per thread.
    Tree,
    /// JSON for further processing.
    Json,
}

/// What to report.
pub struct Args {
    /// The profile's path.
    pub path: String,
    /// How to lay the report out.
    pub layout: Layout,
    /// How many rows of a table, or how many branches of a tree, to show.
    pub top: usize,
    /// The thread to report on, where one is given.
    pub thread: Option<usize>,
    /// Whether to report on every thread.
    pub all_threads: bool,
    /// The share, in percent, from which on a function is shown, as it was written;
    /// one percent where none was given.
    pub min_pct: Option<String>,
    /// Whether to keep instruction offsets.
    pub include_offset: bool,
}

/// What [`Args`] hold, the path only once it was read.
#[verifier::ext_equal]
pub struct ArgsModel {
    pub path: Option<Seq<char>>,
    pub layout: Layout,
    pub top: usize,
    pub thread: Option<usize>,
    pub all_threads: bool,
    pub min_pct: Option<Seq<char>>,
    pub include_offset: bool,
}

impl View for Args {
    type V = ArgsModel;

    open spec fn view(&self) -> ArgsModel {
        ArgsModel {
            path: Some(self.path@),
            layout: self.layout,
            top: self.top,
            thread: self.thread,
            all_threads: self.all_threads,
            min_pct: opt_text(self.min_pct),
            include_offset: self.include_offset,
        }
    }
}

/// What is reported without arguments: the twenty hottest functions of the busiest
/// thread.
pub open spec fn default_args() -> ArgsModel {
    ArgsModel {
        path: None,
        layout: Layout::Table,
        top: 20,
        thread: None,
        all_threads: false,
        min_pct: None,
        include_offset: false,
    }
}

/// The layout that a name stands for.
pub open spec fn layout_named(name: Seq<char>) -> Option<Layout> {
    if name == "table"@ {
        Some(Layout::Table)
    } else if name == "tree"@ {
        Some(Layout::Tree)
    } else if name == "json"@ {
        Some(Layout::Json)
    } else {
        None
    }
}

/// The option that an argument is.
pub enum Opt {
    Format,
    Top,
    Thread,
    MinPct,
    All,
    Offset,
    Help,
    /// No option: a path.
    Path,
}

/// The option that an argument is.
pub open spec fn option_named(arg: Seq<char>) -> Opt {
    if arg == "--format"@ || arg == "-f"@ {
        Opt::Format
    } else if arg == "--top"@ || arg == "-n"@ {
        Opt::Top
    } else if arg == "--thread"@ || arg == "-t"@ {
        Opt::Thread
    } else if arg == "--all"@ || arg == "-a"@ {
        Opt::All
    } else if arg == "--min-pct"@ || arg == "-m"@ {
        Opt::MinPct
    } else if arg == "--offset"@ {
        Opt::Offset
    } else if arg == "-h"@ || arg == "--help"@ {
        Opt::Help
    } else {
        Opt::Path
    }
}

/// Whether an option is followed by a value.
pub open spec fn takes_value(option: Opt) -> bool {
    option is Format || option is Top || option is Thread || option is MinPct
}

/// The arguments with the value of an option read, or what is wrong with it.
pub open spec fn with_value(state: ArgsModel, option: Opt, value: Seq<char>) -> Result<
    ArgsModel,
    Seq<char>,
> {
    match option {
        Opt::Format => match layout_named(value) {
            Some(layout) => Ok(ArgsModel { layout, ..state }),
            None => Err("unknown format: "@ + value),
        },
        Opt::Top => match parsed_number(value, usize::MAX as nat) {
            Some(n) => Ok(ArgsModel { top: n as usize, ..state }),
            None => Err("--top needs a number"@),
        },
        Opt::Thread => match parsed_number(value, usize::MAX as nat) {
            Some(n) => Ok(ArgsModel { thread: Some(n as usize), ..state }),
            None => Err("--thread needs an index"@),
        },
        _ => if is_float_text(value) {
            Ok(ArgsModel { min_pct: Some(value), ..state })
        } else {
            Err("--min-pct needs a number"@)
        },
    }
}

/// The arguments with an option without a value, or a path, read.
pub open spec fn with_flag(state: ArgsModel, option: Opt, arg: Seq<char>) -> Result<
    ArgsModel,
    Seq<char>,
> {
    match option {
        Opt::All => Ok(ArgsModel { all_threads: true, ..state }),
        Opt::Offset => Ok(ArgsModel { include_offset: true, ..state }),
        Opt::Help => Err("show performance hot spots in a profile"@),
        _ => if state.path is None {
            Ok(ArgsModel { path: Some(arg), ..state })
        } else {
            Err("unexpected argument: "@ + arg)
        },
    }
}

/// What the arguments ask for, given what stood before them, or the first thing
/// that is wrong with them.
pub open spec fn parsed_args(args: Seq<Seq<char>>, state: ArgsModel) -> Result<
    ArgsModel,
    Seq<char>,
>
    decreases args.len(),
{
    if args.len() == 0 {
        if state.path is None {
            Err("a profile path is required"@)
        } else {
            Ok(state)
        }
    } else {
        let option = option_named(args[0]);
        if takes_value(option) {
            if args.len() == 1 {
                Err(args[0] + " needs a value"@)
            } else {
                match with_value(state, option, args[1]) {
                    Ok(next) => parsed_args(args.skip(2), next),
                    Err(text) => Err(text),
                }
            }
        } else {
            match with_flag(state, option, args[0]) {
                Ok(next) => parsed_args(args.skip(1), next),
                Err(text) => Err(text),
            }
        }
    }
}

/// The option that an argument is.
fn find_option(arg: &str) -> (r: Opt)
    ensures
        r == option_named(arg@),
{
    if same_text(arg, "--format") || same_text(arg, "-f") {
        Opt::Format
    } else if same_text(arg, "--top") || same_text(arg, "-n") {
        Opt::Top
    } else if same_text(arg, "--thread") || same_text(arg, "-t") {
        Opt::Thread
    } else if same_text(arg, "--all") || same_text(arg, "-a") {
        Opt::All
    } else if same_text(arg, "--min-pct") || same_text(arg, "-m") {
        Opt::MinPct
    } else if same_text(arg, "--offset") {
        Opt::Offset
    } else if same_text(arg, "-h") || same_text(arg, "--help") {
        Opt::Help
    } else {
        Opt::Path
    }
}

/// The layout that a name stands for.
fn find_layout(name: &str) -> (r: Option<Layout>)
    ensures
        r == layout_named(name@),
{
    if same_text(name, "table") {
        Some(Layout::Table)
    } else if same_text(name, "tree") {
        Some(Layout::Tree)
    } else if same_text(name, "json") {
        Some(Layout::Json)
    } else {
        None
    }
}

/// `a` and then `b`.
fn concat(a: &str, b: &str) -> (r: String)
    ensures
        r@ == a@ + b@,
{
    let mut out = String::new();
    out.append(a);
    out.append(b);
    assert(out@ =~= a@ + b@);
    out
}

/// What was read of the arguments so far.
struct Reading {
    path: Option<String>,
    layout: Layout,
    top: usize,
    thread: Option<usize>,
    all_threads: bool,
    min_pct: Option<String>,
    include_offset: bool,
}

impl View for Reading {
    type V = ArgsModel;

    closed spec fn view(&self) -> ArgsModel {
        ArgsModel {
            path: opt_text(self.path),
            layout: self.layout,
            top: self.top,
            thread: self.thread,
            all_threads: self.all_threads,
            min_pct: opt_text(self.min_pct),
            include_offset: self.include_offset,
        }
    }
}

/// Reads the value of an option.
fn read_value(state: Reading, option: &Opt, value: &str) -> (r: Result<Reading, String>)
    requires
        takes_value(*option),
    ensures
        match r {
            Ok(next) => with_value(state@, *option, value@) == Ok::<_, Seq<char>>(next@),
            Err(text) => with_value(state@, *option, value@) == Err::<ArgsModel, _>(text@),
        },
{
    let mut state = state;
    match option {
        Opt::Format => {
            match find_layout(value) {
                Some(layout) => {
                    state.layout = layout;
                },
                None => {
                    return Err(concat("unknown format: ", value));
                },
            }
        },
        Opt::Top => {
            match parse_usize(chars_of(value).as_slice()) {
                Some(n) => {
                    state.top = n;
                },
                None => {
                    return Err("--top needs a number".to_string());
                },
            }
        },
        Opt::Thread => {
            match parse_usize(chars_of(value).as_slice()) {
                Some(n) => {
                    state.thread = Some(n);
                },
                None => {
                    return Err("--thread needs an index".to_string());
                },
            }
        },
        _ => {
            if is_float(chars_of(value).as_slice()) {
                state.min_pct = Some(value.to_string());
            } else {
                return Err("--min-pct needs a number".to_string());
            }
        },
    }
    Ok(state)
}

/// Reads an option without a value, or a path.
fn read_flag(state: Reading, option: &Opt, arg: &str) -> (r: Result<Reading, String>)
    requires
        !takes_value(*option),
    ensures
        match r {
            Ok(next) => with_flag(state@, *option, arg@) == Ok::<_, Seq<char>>(next@),
            Err(text) => with_flag(state@, *option, arg@) == Err::<ArgsModel, _>(text@),
        },
{
    let mut state = state;
    match option {
        Opt::All => {
            state.all_threads = true;
        },
        Opt::Offset => {
            state.include_offset = true;
        },
        Opt::Help => {
            return Err("show performance hot spots in a profile".to_string());
        },
        _ => {
            if state.path.is_some() {
                return Err(concat("unexpected argument: ", arg));
            }
            state.path = Some(arg.to_string());
        },
    }
    Ok(state)
}

/// Reads the arguments that follow the program's name.
pub fn parse_args(args: &Vec<String>) -> (r: Result<Args, String>)
    ensures
        match r {
            Ok(a) => parsed_args(views(args@), default_args()) == Ok::<_, Seq<char>>(a@),
            Err(text) => parsed_args(views(args@), default_args()) == Err::<ArgsModel, _>(text@),
        },
{
    let ghost all = views(args@);
    let n = args.len();
    let mut state = Reading {
        path: None,
        layout: Layout::Table,
        top: 20,
        thread: None,
        all_threads: false,
        min_pct: None,
        include_offset: false,
    };
    let mut i: usize = 0;
    assert(all.skip(0) =~= all);
    assert(state@ =~= default_args());
    while i < n
        invariant
            i <= n,
            n == args@.len(),
            all == views(args@),
            parsed_args(all, default_args()) == parsed_args(all.skip(i as int), state@),
        decreases n - i,
    {
        let arg = args[i].as_str();
        let ghost rest = all.skip(i as int);
        assert(rest[0] == arg@);
        let option = find_option(arg);
        let valued = match option {
            Opt::Format | Opt::Top | Opt::Thread | Opt::MinPct => true,
            _ => false,
        };
        if valued {
            if i + 1 >= n {
                return Err(concat(arg, " needs a value"));
            }
            let value = args[i + 1].as_str();
            assert(rest[1] == value@);
            match read_value(state, &option, value) {
                Ok(next) => {
                    state = next;
                },
                Err(text) => {
                    return Err(text);
                },
            }
            assert(rest.skip(2) =~= all.skip(i + 2));
            i = i + 2;
        } else {
            match read_flag(state, &option, arg) {
                Ok(next) => {
                    state = next;
                },
                Err(text) => {
                    return Err(text);
                },
            }
            assert(rest.skip(1) =~= all.skip(i + 1));
            i = i + 1;
        }
    }
    match state.path {
        Some(path) => Ok(
            Args {
                path,
                layout: state.layout,
                top: state.top,
                thread: state.thread,
                all_threads: state.all_threads,
                min_pct: state.min_pct,
                include_offset: state.include_offset,
            },
        ),
        None => Err("a profile path is required".to_string()),
    }
}

// ---------------------------------------------------------------------------
// What is shown
// ---------------------------------------------------------------------------

/// The threads to report on: the one that was asked for, all of them, or the
/// busiest.
pub open spec fn selection(order: Seq<usize>, thread: Option<usize>, all: bool) -> Seq<usize> {
    match thread {
        Some(i) => seq![i],
        None => if all || order.len() == 0 {
            order
        } else {
            order.take(1)
        },
    }
}

/// Selects the threads to report on, of an order with the busiest first.
pub fn select_threads(order: &Vec<usize>, thread: Option<usize>, all: bool) -> (r: Vec<usize>)
    ensures
        r@ == selection(order@, thread, all),
{
    let mut out: Vec<usize> = Vec::new();
    match thread {
        Some(i) => {
            out.push(i);
        },
        None => {
            let shown = if all || order.len() == 0 {
                order.len()
            } else {
                1
            };
            for k in 0..shown
                invariant
                    shown <= order@.len(),
                    out@ == order@.take(k as int),
            {
                out.push(order[k]);
                assert(out@ =~= order@.take(k + 1));
            }
            assert(order@.take(order@.len() as int) =~= order@);
        },
    }
    assert(out@ =~= selection(order@, thread, all));
    out
}

/// The events reach the least number that is shown. Where no number does, nothing
/// is.
pub open spec fn is_above(events: u64, least: Option<u64>) -> bool {
    match least {
        Some(n) => events >= n,
        None => false,
    }
}

/// Whether the events reach the least number that is shown.
fn reaches(events: u64, least: Option<u64>) -> (r: bool)
    ensures
        r == is_above(events, least),
{
    match least {
        Some(n) => events >= n,
        None => false,
    }
}

/// Which of the first `n` rows are shown: the first `top` whose exclusive events
/// reach the least number.
pub open spec fn shown_rows(
    rows: Seq<FunctionStat>,
    n: int,
    least: Option<u64>,
    top: nat,
) -> Seq<int>
    decreases n,
{
    if n <= 0 {
        Seq::empty()
    } else {
        let before = shown_rows(rows, n - 1, least, top);
        if is_above(rows[n - 1].self_events, least) && before.len() < top {
            before.push(n - 1)
        } else {
            before
        }
    }
}

/// The rows at the given positions.
pub open spec fn picked(rows: Seq<FunctionStat>, at: Seq<int>) -> Seq<FunctionStat> {
    at.map_values(|i: int| rows[i])
}

/// The rows that are shown.
pub fn table_rows(rows: Vec<FunctionStat>, least: Option<u64>, top: usize) -> (r: Vec<FunctionStat>)
    ensures
        r@ == picked(rows@, shown_rows(rows@, rows@.len() as int, least, top as nat)),
{
    let mut shown: Vec<FunctionStat> = Vec::new();
    let ghost all = rows@;
    assert(shown@ =~= picked(all, shown_rows(all, 0, least, top as nat)));
    for row in it: rows
        invariant
            it.seq() == all,
            shown@ == picked(all, shown_rows(all, it.index() as int, least, top as nat)),
    {
        let ghost n = it.index() as int;
        if reaches(row.self_events, least) && shown.len() < top {
            shown.push(row);
        }
        assert(shown@ =~= picked(all, shown_rows(all, n + 1, least, top as nat)));
    }
    shown
}

/// No more than `top` rows are shown, each reaches the least number of events, they
/// come in order, and a row that is left out for want of room comes after all of
/// them.
pub proof fn law_table_rows(rows: Seq<FunctionStat>, n: int, least: Option<u64>, top: nat)
    requires
        0 <= n <= rows.len(),
    ensures
        ({
            let shown = shown_rows(rows, n, least, top);
            &&& shown.len() <= top
            &&& forall|a: int|
                0 <= a < shown.len() ==> 0 <= #[trigger] shown[a] < n && is_above(
                    rows[shown[a]].self_events,
                    least,
                )
            &&& forall|a: int, b: int|
                0 <= a < b < shown.len() ==> #[trigger] shown[a] < #[trigger] shown[b]
            &&& forall|k: int|
                0 <= k < n && is_above((#[trigger] rows[k]).self_events, least) && !shown.contains(
                    k,
                ) ==> shown.len() == top && forall|a: int|
                    0 <= a < shown.len() ==> #[trigger] shown[a] < k
        }),
    decreases n,
{
    if n > 0 {
        law_table_rows(rows, n - 1, least, top);
        let before = shown_rows(rows, n - 1, least, top);
        let shown = shown_rows(rows, n, least, top);
        assert forall|k: int|
            0 <= k < n && is_above((#[trigger] rows[k]).self_events, least) && !shown.contains(
                k,
            ) implies shown.len() == top && forall|a: int|
            0 <= a < shown.len() ==> #[trigger] shown[a] < k by {
            if shown != before {
                assert(shown[shown.len() - 1] == n - 1);
                if k < n - 1 {
                    if before.contains(k) {
                        let a = choose|a: int| 0 <= a < before.len() && before[a] == k;
                        assert(shown[a] == k);
                    }
                }
            }
        }
    }
}

// ---------------------------------------------------------------------------
// What is listed of a thread
// ---------------------------------------------------------------------------

/// What a table, or JSON, lists of a thread.
pub struct ThreadListing {
    /// The thread's index.
    pub index: usize,
    /// Its label.
    pub label: String,
    /// Its events: the denominator for percentages.
    pub events: u64,
    /// Its functions that are shown, hottest first.
    pub rows: Vec<FunctionStat>,
}

/// What is written of a function.
#[verifier::ext_equal]
pub struct RowModel {
    pub key: Seq<char>,
    pub self_events: u64,
    pub total_events: u64,
}

/// What a [`ThreadListing`] holds.
#[verifier::ext_equal]
pub struct ListingModel {
    pub index: int,
    pub label: Seq<char>,
    pub events: u64,
    pub rows: Seq<RowModel>,
}

/// What is written of the function of a row.
pub open spec fn row_model(row: FunctionStat) -> RowModel {
    RowModel { key: row.key@, self_events: row.self_events, total_events: row.total_events }
}

/// What is written of the functions of rows.
pub open spec fn row_models(rows: Seq<FunctionStat>) -> Seq<RowModel> {
    rows.map_values(|row: FunctionStat| row_model(row))
}

impl View for ThreadListing {
    type V = ListingModel;

    open spec fn view(&self) -> ListingModel {
        ListingModel {
            index: self.index as int,
            label: self.label@,
            events: self.events,
            rows: row_models(self.rows@),
        }
    }
}

/// The listing is that of the thread at `index`: of its flat profile, the first `top`
/// rows whose exclusive events reach the least number.
pub open spec fn is_listing<T>(
    listing: ListingModel,
    threads: Seq<ThreadModel<T>>,
    index: int,
    least: Option<u64>,
    top: nat,
) -> bool {
    &&& listing.index == index
    &&& listing.label == threads[index].label()
    &&& listing.events == weight_sum(threads[index].samples)
    &&& exists|rows: Seq<FunctionStat>| #[trigger]
        is_flat_profile(rows, threads[index]) && listing.rows == row_models(
            picked(rows, shown_rows(rows, rows.len() as int, least, top)),
        )
}

/// The stacks of the thread refer to frames of its table, and its events can be summed.
pub open spec fn countable<T>(t: ThreadModel<T>) -> bool {
    stacks_within(t.samples, t.frames.len() as int) && weight_sum(t.samples) <= u64::MAX
}

/// Lists the functions of the thread at `index` that are shown, if there is such a
/// thread.
pub fn list_thread<T>(
    profile: &Profile<T>,
    index: usize,
    least: Option<u64>,
    top: usize,
) -> (r: Option<ThreadListing>)
    requires
        (index as int) < profile@.len() ==> countable(profile@[index as int]),
    ensures
        r is Some <==> (index as int) < profile@.len(),
        r is Some ==> is_listing(r->0@, profile@, index as int, least, top as nat),
{
    if index >= profile.threads.len() {
        return None;
    }
    let thread = &profile.threads[index];
    proof {
        assert(thread@ == profile@[index as int]);
        assert(thread.samples.len() <= usize::MAX);
        lemma_events_fit(thread@);
    }
    let all = flat_profile(thread);
    let ghost flat = all@;
    let rows = table_rows(all, least, top);
    let listing = ThreadListing {
        index,
        label: thread.label(),
        events: thread.event_count(),
        rows,
    };
    assert(is_flat_profile(flat, profile@[index as int]) && listing@.rows == row_models(
        picked(flat, shown_rows(flat, flat.len() as int, least, top as nat)),
    ));
    Some(listing)
}

/// Which of the first `n` selected indices are those of a thread, by position.
pub open spec fn found(selected: Seq<usize>, n: int, threads: nat) -> Seq<int>
    decreases n,
{
    if n <= 0 {
        Seq::empty()
    } else if selected[n - 1] < threads {
        found(selected, n - 1, threads).push(n - 1)
    } else {
        found(selected, n - 1, threads)
    }
}

/// Lists the functions of the selected threads, with the least number of events that
/// goes with each. An index without a thread adds nothing.
pub fn list_threads<T>(
    profile: &Profile<T>,
    selected: &Vec<usize>,
    least: &Vec<Option<u64>>,
    top: usize,
) -> (r: Vec<ThreadListing>)
    requires
        least@.len() == selected@.len(),
        forall|i: int|
            0 <= i < selected@.len() && (#[trigger] selected@[i] as int) < profile@.len()
                ==> countable(profile@[selected@[i] as int]),
    ensures
        r@.len() == found(selected@, selected@.len() as int, profile@.len()).len(),
        forall|k: int|
            0 <= k < r@.len() ==> {
                let i = found(selected@, selected@.len() as int, profile@.len())[k];
                is_listing(
                    (#[trigger] r@[k])@,
                    profile@,
                    selected@[i] as int,
                    least@[i],
                    top as nat,
                )
            },
{
    let mut out: Vec<ThreadListing> = Vec::new();
    let n = selected.len();
    for i in 0..n
        invariant
            n == selected@.len() == least@.len(),
            forall|i: int|
                0 <= i < selected@.len() && (#[trigger] selected@[i] as int) < profile@.len()
                    ==> countable(profile@[selected@[i] as int]),
            out@.len() == found(selected@, i as int, profile@.len()).len(),
            forall|k: int|
                0 <= k < out@.len() ==> {
                    let i = found(selected@, i as int, profile@.len())[k];
                    is_listing(
                        (#[trigger] out@[k])@,
                        profile@,
                        selected@[i] as int,
                        least@[i],
                        top as nat,
                    )
                },
    {
        if let Some(listing) = list_thread(profile, selected[i], least[i], top) {
            out.push(listing);
        }
    }
    out
}

/// Rows with the same exclusive events are shown at the same positions.
proof fn lemma_same_shown(
    a: Seq<FunctionStat>,
    b: Seq<FunctionStat>,
    n: int,
    least: Option<u64>,
    top: nat,
)
    requires
        forall|i: int| 0 <= i < n ==> (#[trigger] a[i]).self_events == b[i].self_events,
    ensures
        shown_rows(a, n, least, top) == shown_rows(b, n, least, top),
    decreases n,
{
    if n > 0 {
        lemma_same_shown(a, b, n - 1, least, top);
        assert(a[n - 1].self_events == b[n - 1].self_events);
    }
}

/// A thread, the least number of events and `top` determine what is listed.
pub proof fn law_listing_is_determined<T>(
    a: ListingModel,
    b: ListingModel,
    threads: Seq<ThreadModel<T>>,
    index: int,
    least: Option<u64>,
    top: nat,
)
    requires
        is_listing(a, threads, index, least, top),
        is_listing(b, threads, index, least, top),
    ensures
        a == b,
{
    let t = threads[index];
    let x = choose|rows: Seq<FunctionStat>| #[trigger]
        is_flat_profile(rows, t) && a.rows == row_models(
            picked(rows, shown_rows(rows, rows.len() as int, least, top)),
        );
    let y = choose|rows: Seq<FunctionStat>| #[trigger]
        is_flat_profile(rows, t) && b.rows == row_models(
            picked(rows, shown_rows(rows, rows.len() as int, least, top)),
        );
    if x.len() > 0 {
        law_flat_profile_is_determined(x, y, t, 0);
    }
    if y.len() > 0 {
        law_flat_profile_is_determined(y, x, t, 0);
    }
    let n = x.len() as int;
    assert forall|i: int| 0 <= i < n implies row_model(#[trigger] x[i]) == row_model(y[i])
        && x[i].self_events == y[i].self_events by {
        law_flat_profile_is_determined(x, y, t, i);
    }
    lemma_same_shown(x, y, n, least, top);
    law_table_rows(x, n, least, top);
    let shown = shown_rows(x, n, least, top);
    assert(a.rows.len() == shown.len() && b.rows.len() == shown.len());
    assert forall|k: int| 0 <= k < shown.len() implies #[trigger] a.rows[k] == b.rows[k] by {
        let i = shown[k];
        assert(0 <= i < n);
        assert(row_model(x[i]) == row_model(y[i]));
        assert(a.rows[k] == row_model(x[i]));
        assert(b.rows[k] == row_model(y[i]));
    }
    assert(a.rows =~= b.rows);
}

/// One line of a pruned call tree.
#[derive(Debug, Clone, Copy, PartialEq, Eq)]
pub struct TreeRow {
    /// How deep the line is indented.
    pub depth: usize,
    /// Interned frame; resolve against the owning thread's frame table.
    pub frame: FrameId,
    /// Inclusive events.
    pub total_events: u64,
    /// Exclusive events.
    pub self_events: u64,
}

/// What a [`TreeRow`] holds.
pub struct TreeRowModel {
    pub depth: int,
    pub frame: FrameId,
    pub total_events: u64,
    pub self_events: u64,
}

impl View for TreeRow {
    type V = TreeRowModel;

    open spec fn view(&self) -> TreeRowModel {
        TreeRowModel {
            depth: self.depth as int,
            frame: self.frame,
            total_events: self.total_events,
            self_events: self.self_events,
        }
    }
}

/// What the rows of a list hold.
pub open spec fn tree_row_models(rows: Seq<TreeRow>) -> Seq<TreeRowModel> {
    rows.map_values(|r: TreeRow| r@)
}

/// How many of `n` siblings are shown.
pub open spec fn breadth(n: nat, top: nat) -> int {
    if n < top {
        n as int
    } else {
        top as int
    }
}

/// The line of a node and those of its children, where its events reach the least
/// number.
pub open spec fn node_rows(node: CallNode, depth: int, least: Option<u64>, top: nat) -> Seq<
    TreeRowModel,
>
    decreases node, 0int,
{
    if is_above(node.total_samples, least) {
        seq![
            TreeRowModel {
                depth,
                frame: node.frame,
                total_events: node.total_samples,
                self_events: node.self_samples,
            },
        ] + sibling_rows(
            node.children@,
            breadth(node.children@.len(), top),
            depth + 1,
            least,
            top,
        )
    } else {
        Seq::empty()
    }
}

/// The lines of the first `n` of a list of siblings.
pub open spec fn sibling_rows(
    nodes: Seq<CallNode>,
    n: int,
    depth: int,
    least: Option<u64>,
    top: nat,
) -> Seq<TreeRowModel>
    decreases nodes, n,
{
    if n <= 0 || n > nodes.len() {
        Seq::empty()
    } else {
        sibling_rows(nodes, n - 1, depth, least, top) + node_rows(nodes[n - 1], depth, least, top)
    }
}

/// The rows are those of the call tree of `samples`: at most `top` branches at every
/// node, and only spans whose events reach the least number.
pub open spec fn is_pruned_tree<T>(
    rows: Seq<TreeRowModel>,
    samples: Seq<SampleModel<T>>,
    least: Option<u64>,
    top: nat,
) -> bool {
    exists|tree: CallTree| #[trigger]
        is_call_tree(tree, samples) && rows == sibling_rows(
            tree.roots@,
            breadth(tree.roots@.len(), top),
            0,
            least,
            top,
        )
}

/// No stack is too deep for its lines to be indented.
spec fn depths_fit<T>(samples: Seq<SampleModel<T>>) -> bool {
    forall|i: int| 0 <= i < samples.len() ==> (#[trigger] samples[i]).stack.len() <= usize::MAX
}

/// Appends the lines of a list of siblings.
fn push_siblings<T>(
    nodes: &Vec<CallNode>,
    depth: usize,
    least: Option<u64>,
    top: usize,
    out: &mut Vec<TreeRow>,
    Ghost(samples): Ghost<Seq<SampleModel<T>>>,
    Ghost(path): Ghost<Seq<FrameId>>,
)
    requires
        is_level(nodes@, samples, path),
        depths_fit(samples),
        depth == path.len(),
    ensures
        tree_row_models(final(out)@) == tree_row_models(old(out)@) + sibling_rows(
            nodes@,
            breadth(nodes@.len(), top as nat),
            depth as int,
            least,
            top as nat,
        ),
    decreases nodes,
{
    let ghost before = tree_row_models(out@);
    let shown = if nodes.len() < top {
        nodes.len()
    } else {
        top
    };
    assert(before + sibling_rows(nodes@, 0, depth as int, least, top as nat) =~= before);
    for i in 0..shown
        invariant
            shown <= nodes@.len(),
            is_level(nodes@, samples, path),
            depths_fit(samples),
            depth == path.len(),
            tree_row_models(out@) == before + sibling_rows(
                nodes@,
                i as int,
                depth as int,
                least,
                top as nat,
            ),
    {
        let node = &nodes[i];
        let ghost start = tree_row_models(out@);
        let ghost row = TreeRowModel {
            depth: depth as int,
            frame: node.frame,
            total_events: node.total_samples,
            self_events: node.self_samples,
        };
        assert(is_node(nodes@[i as int], samples, path));
        if reaches(node.total_samples, least) {
            let ghost pushed = out@;
            out.push(
                TreeRow {
                    depth,
                    frame: node.frame,
                    total_events: node.total_samples,
                    self_events: node.self_samples,
                },
            );
            assert(tree_row_models(out@) =~= tree_row_models(pushed).push(row));
            proof {
                // The node's own sample reaches below it.
                let sub = path.push(node.frame);
                assert(has_frame(nodes@, node.frame));
                assert(occurs(samples, sub));
                let m = choose|m: int|
                    0 <= m < samples.len() && passes(#[trigger] samples[m], sub);
                assert(samples[m].stack.len() <= usize::MAX);
            }
            assert(decreases_to!(nodes => nodes@));
            assert(decreases_to!(nodes@ => nodes@[i as int]));
            assert(decreases_to!(nodes@[i as int] => nodes@[i as int].children));
            push_siblings::<T>(
                &node.children,
                depth + 1,
                least,
                top,
                out,
                Ghost(samples),
                Ghost(path.push(node.frame)),
            );
        }
        assert(tree_row_models(out@) =~= start + node_rows(
            *node,
            depth as int,
            least,
            top as nat,
        ));
        assert(tree_row_models(out@) =~= before + sibling_rows(
            nodes@,
            i + 1,
            depth as int,
            least,
            top as nat,
        ));
    }
}

/// The lines of a thread's call tree, pruned: at most `top` branches at every node,
/// and only spans whose inclusive events reach `least`.
pub fn tree_rows<T>(thread: &Thread<T>, least: Option<u64>, top: usize) -> (r: Vec<TreeRow>)
    requires
        weight_sum(thread@.samples) <= u64::MAX,
    ensures
        is_pruned_tree(tree_row_models(r@), thread@.samples, least, top as nat),
{
    let tree = call_tree(thread);
    let mut rows: Vec<TreeRow> = Vec::new();
    proof {
        assert forall|i: int| 0 <= i < thread@.samples.len() implies (
        #[trigger] thread@.samples[i]).stack.len() <= usize::MAX by {
            assert(thread@.samples[i].stack == thread.samples@[i].stack@);
            assert(thread.samples@[i].stack.len() <= usize::MAX);
        }
    }
    push_siblings::<T>(
        &tree.roots,
        0,
        least,
        top,
        &mut rows,
        Ghost(thread@.samples),
        Ghost(Seq::empty()),
    );
    assert(tree_row_models(rows@) =~= sibling_rows(
        tree.roots@,
        breadth(tree.roots@.len(), top as nat),
        0,
        least,
        top as nat,
    ));
    rows
}

/// Every line of a pruned tree reaches the least number of events.
pub proof fn law_tree_rows_reach<T>(
    rows: Seq<TreeRowModel>,
    samples: Seq<SampleModel<T>>,
    least: Option<u64>,
    top: nat,
    i: int,
)
    requires
        is_pruned_tree(rows, samples, least, top),
        0 <= i < rows.len(),
    ensures
        is_above(rows[i].total_events, least),
        rows[i].depth >= 0,
{
    let tree = choose|tree: CallTree| #[trigger]
        is_call_tree(tree, samples) && rows == sibling_rows(
            tree.roots@,
            breadth(tree.roots@.len(), top),
            0,
            least,
            top,
        );
    lemma_sibling_rows(tree.roots@, breadth(tree.roots@.len(), top), 0, least, top);
}

proof fn lemma_sibling_rows(
    nodes: Seq<CallNode>,
    n: int,
    depth: int,
    least: Option<u64>,
    top: nat,
)
    ensures
        forall|i: int|
            0 <= i < sibling_rows(nodes, n, depth, least, top).len() ==> is_above(
                (#[trigger] sibling_rows(nodes, n, depth, least, top)[i]).total_events,
                least,
            ) && sibling_rows(nodes, n, depth, least, top)[i].depth >= depth,
    decreases nodes, n,
{
    if 0 < n <= nodes.len() {
        let node = nodes[n - 1];
        lemma_sibling_rows(nodes, n - 1, depth, least, top);
        lemma_sibling_rows(
            node.children@,
            breadth(node.children@.len(), top),
            depth + 1,
            least,
            top,
        );
        let all = sibling_rows(nodes, n, depth, least, top);
        let a = sibling_rows(nodes, n - 1, depth, least, top);
        let b = node_rows(node, depth, least, top);
        let c = sibling_rows(
            node.children@,
            breadth(node.children@.len(), top),
            depth + 1,
            least,
            top,
        );
        assert forall|i: int| 0 <= i < all.len() implies is_above(
            (#[trigger] all[i]).total_events,
            least,
        ) && all[i].depth >= depth by {
            if i < a.len() {
                assert(all[i] == a[i]);
            } else {
                assert(all[i] == b[i - a.len()]);
                if i > a.len() {
                    assert(b[i - a.len()] == c[i - a.len() - 1]);
                }
            }
        }
    }
}

/// The node that the positions `at` lead to, the first among `nodes`, each other among the
/// children of the node before.
pub open spec fn node_at(nodes: Seq<CallNode>, at: Seq<int>) -> CallNode
    decreases at.len(),
{
    if at.len() <= 1 {
        nodes[at[0]]
    } else {
        node_at(nodes[at[0]].children@, at.skip(1))
    }
}

/// There is a node at the positions `at`, and it and every node on the way to it is one
/// of the first `top` of its siblings and has at least `least` events.
pub open spec fn is_hot_path(nodes: Seq<CallNode>, at: Seq<int>, least: u64, top: nat) -> bool
    decreases at.len(),
{
    &&& at.len() > 0
    &&& 0 <= at[0] < nodes.len()
    &&& at[0] < top
    &&& nodes[at[0]].total_samples >= least
    &&& at.len() > 1 ==> is_hot_path(nodes[at[0]].children@, at.skip(1), least, top)
}

/// A path stands before the paths below it and before those that turn off to a later
/// sibling.
pub open spec fn path_before(a: Seq<int>, b: Seq<int>) -> bool
    decreases a.len(),
{
    &&& b.len() > 0
    &&& a.len() == 0 || a[0] < b[0] || (a[0] == b[0] && path_before(a.skip(1), b.skip(1)))
}

/// The line of the node at the positions `at`.
spec fn row_at(nodes: Seq<CallNode>, depth: int, least: Option<u64>, top: nat, at: Seq<int>) -> int
    decreases at.len(),
{
    if at.len() == 0 {
        -1
    } else {
        sibling_rows(nodes, at[0], depth, least, top).len() + 1 + row_at(
            nodes[at[0]].children@,
            depth + 1,
            least,
            top,
            at.skip(1),
        )
    }
}

proof fn lemma_more_siblings(
    nodes: Seq<CallNode>,
    i: int,
    n: int,
    depth: int,
    least: Option<u64>,
    top: nat,
)
    requires
        0 <= i <= n <= nodes.len(),
    ensures
        sibling_rows(nodes, i, depth, least, top).len() <= sibling_rows(
            nodes,
            n,
            depth,
            least,
            top,
        ).len(),
        forall|k: int|
            0 <= k < sibling_rows(nodes, i, depth, least, top).len() ==> #[trigger] sibling_rows(
                nodes,
                n,
                depth,
                least,
                top,
            )[k] == sibling_rows(nodes, i, depth, least, top)[k],
    decreases n - i,
{
    if i < n {
        lemma_more_siblings(nodes, i, n - 1, depth, least, top);
        let all = sibling_rows(nodes, n, depth, least, top);
        let part = sibling_rows(nodes, n - 1, depth, least, top);
        assert forall|k: int| 0 <= k < sibling_rows(nodes, i, depth, least, top).len() implies
            #[trigger] all[k] == sibling_rows(nodes, i, depth, least, top)[k] by {
            assert(all[k] == part[k]);
        }
    }
}

/// A node on a hot path has its line.
proof fn lemma_row_at(nodes: Seq<CallNode>, depth: int, least: u64, top: nat, at: Seq<int>)
    requires
        is_hot_path(nodes, at, least, top),
    ensures
        ({
            let n = breadth(nodes.len(), top);
            let rows = sibling_rows(nodes, n, depth, Some(least), top);
            let r = row_at(nodes, depth, Some(least), top, at);
            let node = node_at(nodes, at);
            &&& 0 <= r < sibling_rows(nodes, at[0] + 1, depth, Some(least), top).len()
                <= rows.len()
            &&& sibling_rows(nodes, at[0], depth, Some(least), top).len() <= r
            &&& rows[r].depth == depth + at.len() - 1
            &&& rows[r].frame == node.frame
            &&& rows[r].total_events == node.total_samples
            &&& rows[r].self_events == node.self_samples
        }),
    decreases at.len(),
{
    let n = breadth(nodes.len(), top);
    let i = at[0];
    let before = sibling_rows(nodes, i, depth, Some(least), top);
    let upto = sibling_rows(nodes, i + 1, depth, Some(least), top);
    let own = node_rows(nodes[i], depth, Some(least), top);
    lemma_more_siblings(nodes, i + 1, n, depth, Some(least), top);
    assert(upto =~= before + own);
    assert(own.len() > 0);
    if at.len() > 1 {
        lemma_row_at(nodes[i].children@, depth + 1, least, top, at.skip(1));
        let r = row_at(nodes[i].children@, depth + 1, Some(least), top, at.skip(1));
        assert(upto[before.len() + 1 + r] == own[1 + r]);
    } else {
        assert(at.skip(1).len() == 0);
        assert(upto[before.len() as int] == own[0]);
    }
}

/// The lines come in the order of the paths.
proof fn lemma_row_order(
    nodes: Seq<CallNode>,
    depth: int,
    least: u64,
    top: nat,
    a: Seq<int>,
    b: Seq<int>,
)
    requires
        is_hot_path(nodes, a, least, top),
        is_hot_path(nodes, b, least, top),
        path_before(a, b),
    ensures
        row_at(nodes, depth, Some(least), top, a) < row_at(nodes, depth, Some(least), top, b),
    decreases a.len(),
{
    lemma_row_at(nodes, depth, least, top, a);
    lemma_row_at(nodes, depth, least, top, b);
    if a[0] < b[0] {
        lemma_more_siblings(nodes, a[0] + 1, b[0], depth, Some(least), top);
    } else if a.len() > 1 {
        assert(path_before(a.skip(1), b.skip(1)));
        lemma_row_order(
            nodes[a[0]].children@,
            depth + 1,
            least,
            top,
            a.skip(1),
            b.skip(1),
        );
    } else {
        assert(path_before(a.skip(1), b.skip(1)));
        assert(a.skip(1).len() == 0);
        assert(b.len() > 1);
        assert(row_at(nodes[a[0]].children@, depth + 1, Some(least), top, a.skip(1)) == -1);
        lemma_row_at(nodes[a[0]].children@, depth + 1, least, top, b.skip(1));
    }
}

/// Every line is that of a node on a hot path.
proof fn lemma_row_from(
    nodes: Seq<CallNode>,
    n: int,
    depth: int,
    least: Option<u64>,
    top: nat,
    r: int,
) -> (at: Seq<int>)
    requires
        0 <= n <= nodes.len(),
        n <= top,
        0 <= r < sibling_rows(nodes, n, depth, least, top).len(),
    ensures
        least is Some,
        is_hot_path(nodes, at, least->0, top),
        at[0] < n,
        row_at(nodes, depth, least, top, at) == r,
    decreases nodes, n,
{
    let before = sibling_rows(nodes, n - 1, depth, least, top);
    let own = node_rows(nodes[n - 1], depth, least, top);
    if r < before.len() {
        lemma_row_from(nodes, n - 1, depth, least, top, r)
    } else {
        assert(own.len() > 0);
        let k = r - before.len();
        if k == 0 {
            let at = seq![n - 1];
            assert(at.skip(1).len() == 0);
            assert(row_at(nodes[n - 1].children@, depth + 1, least, top, at.skip(1)) == -1);
            at
        } else {
            let rest = lemma_row_from(
                nodes[n - 1].children@,
                breadth(nodes[n - 1].children@.len(), top),
                depth + 1,
                least,
                top,
                k - 1,
            );
            let at = seq![n - 1] + rest;
            assert(at[0] == n - 1);
            assert(at.skip(1) =~= rest);
            assert(is_hot_path(nodes, at, least->0, top));
            assert(row_at(nodes, depth, least, top, at) == before.len() + 1 + (k - 1));
            at
        }
    }
}

proof fn lemma_first_child_row(
    nodes: Seq<CallNode>,
    depth: int,
    least: Option<u64>,
    top: nat,
    at: Seq<int>,
)
    requires
        at.len() > 0,
    ensures
        row_at(nodes, depth, least, top, at.push(0)) == row_at(nodes, depth, least, top, at) + 1,
    decreases at.len(),
{
    let more = at.push(0);
    assert(more.skip(1) =~= at.skip(1).push(0));
    assert(more[0] == at[0]);
    if at.len() > 1 {
        lemma_first_child_row(nodes[at[0]].children@, depth + 1, least, top, at.skip(1));
    } else {
        let children = nodes[at[0]].children@;
        let first = seq![0int];
        assert(more.skip(1) =~= first);
        assert(at.skip(1).len() == 0);
        assert(first.skip(1).len() == 0);
        assert(sibling_rows(children, 0, depth + 1, least, top).len() == 0);
        assert(row_at(children, depth + 1, least, top, at.skip(1)) == -1);
        assert(row_at(children[0].children@, depth + 2, least, top, first.skip(1)) == -1);
        assert(row_at(children, depth + 1, least, top, first) == 0);
    }
}

/// Trees with the same nodes have the same lines.
proof fn lemma_same_rows(
    a: Seq<CallNode>,
    b: Seq<CallNode>,
    n: int,
    depth: int,
    least: Option<u64>,
    top: nat,
)
    requires
        same_nodes(a, b),
        n <= a.len(),
    ensures
        sibling_rows(a, n, depth, least, top) == sibling_rows(b, n, depth, least, top),
    decreases a, n,
{
    if n > 0 {
        lemma_same_rows(a, b, n - 1, depth, least, top);
        assert(a[n - 1].frame == b[n - 1].frame);
        lemma_same_rows(
            a[n - 1].children@,
            b[n - 1].children@,
            breadth(a[n - 1].children@.len(), top),
            depth + 1,
            least,
            top,
        );
        assert(node_rows(a[n - 1], depth, least, top) == node_rows(b[n - 1], depth, least, top));
    }
}

proof fn lemma_rows_of_tree<T>(
    rows: Seq<TreeRow>,
    tree: CallTree,
    samples: Seq<SampleModel<T>>,
    least: Option<u64>,
    top: nat,
)
    requires
        is_pruned_tree(tree_row_models(rows), samples, least, top),
        is_call_tree(tree, samples),
    ensures
        tree_row_models(rows) == sibling_rows(
            tree.roots@,
            breadth(tree.roots@.len(), top),
            0,
            least,
            top,
        ),
{
    let other = choose|other: CallTree| #[trigger]
        is_call_tree(other, samples) && tree_row_models(rows) == sibling_rows(
            other.roots@,
            breadth(other.roots@.len(), top),
            0,
            least,
            top,
        );
    law_call_tree_is_determined(other, tree, samples);
    lemma_same_rows(other.roots@, tree.roots@, breadth(other.roots@.len(), top), 0, least, top);
}

/// Every node of the call tree is shown that has enough events and is among the first of
/// its siblings, as all nodes on the way to it are: in a line with its depth, its frame
/// and its events. If its first child is shown too, that is the next line.
pub proof fn law_tree_shows_every_hot_path<T>(
    rows: Seq<TreeRow>,
    tree: CallTree,
    samples: Seq<SampleModel<T>>,
    least: u64,
    top: nat,
    at: Seq<int>,
) -> (r: int)
    requires
        is_pruned_tree(tree_row_models(rows), samples, Some(least), top),
        is_call_tree(tree, samples),
        is_hot_path(tree.roots@, at, least, top),
    ensures
        0 <= r < rows.len(),
        rows[r].depth == at.len() - 1,
        rows[r].frame == node_at(tree.roots@, at).frame,
        rows[r].total_events == node_at(tree.roots@, at).total_samples,
        rows[r].self_events == node_at(tree.roots@, at).self_samples,
        is_hot_path(tree.roots@, at.push(0), least, top) ==> {
            let child = node_at(tree.roots@, at.push(0));
            &&& r + 1 < rows.len()
            &&& rows[r + 1].depth == at.len()
            &&& rows[r + 1].frame == child.frame
            &&& rows[r + 1].total_events == child.total_samples
            &&& rows[r + 1].self_events == child.self_samples
        },
{
    lemma_rows_of_tree(rows, tree, samples, Some(least), top);
    lemma_row_at(tree.roots@, 0, least, top, at);
    let r = row_at(tree.roots@, 0, Some(least), top, at);
    assert(tree_row_models(rows)[r] == rows[r]@);
    if is_hot_path(tree.roots@, at.push(0), least, top) {
        lemma_row_at(tree.roots@, 0, least, top, at.push(0));
        lemma_first_child_row(tree.roots@, 0, Some(least), top, at);
        assert(tree_row_models(rows)[r + 1] == rows[r + 1]@);
    }
    r
}

/// Every line is that of such a node.
pub proof fn law_tree_shows_only_hot_paths<T>(
    rows: Seq<TreeRow>,
    tree: CallTree,
    samples: Seq<SampleModel<T>>,
    least: Option<u64>,
    top: nat,
    r: int,
) -> (at: Seq<int>)
    requires
        is_pruned_tree(tree_row_models(rows), samples, least, top),
        is_call_tree(tree, samples),
        0 <= r < rows.len(),
    ensures
        least is Some,
        is_hot_path(tree.roots@, at, least->0, top),
        rows[r].depth == at.len() - 1,
        rows[r].frame == node_at(tree.roots@, at).frame,
        rows[r].total_events == node_at(tree.roots@, at).total_samples,
        rows[r].self_events == node_at(tree.roots@, at).self_samples,
{
    lemma_rows_of_tree(rows, tree, samples, least, top);
    let n = breadth(tree.roots@.len(), top);
    assert(tree_row_models(rows)[r] == rows[r]@);
    let at = lemma_row_from(tree.roots@, n, 0, least, top, r);
    lemma_row_at(tree.roots@, 0, least->0, top, at);
    at
}

/// The lines come top down: a node before what is below it, and that before its later
/// siblings.
pub proof fn law_tree_is_listed_top_down<T>(
    rows: Seq<TreeRow>,
    tree: CallTree,
    samples: Seq<SampleModel<T>>,
    least: u64,
    top: nat,
    a: Seq<int>,
    b: Seq<int>,
) -> (r: (int, int))
    requires
        is_pruned_tree(tree_row_models(rows), samples, Some(least), top),
        is_call_tree(tree, samples),
        is_hot_path(tree.roots@, a, least, top),
        is_hot_path(tree.roots@, b, least, top),
        path_before(a, b),
    ensures
        0 <= r.0 < r.1 < rows.len(),
        rows[r.0].depth == a.len() - 1,
        rows[r.0].frame == node_at(tree.roots@, a).frame,
        rows[r.0].total_events == node_at(tree.roots@, a).total_samples,
        rows[r.1].depth == b.len() - 1,
        rows[r.1].frame == node_at(tree.roots@, b).frame,
        rows[r.1].total_events == node_at(tree.roots@, b).total_samples,
{
    lemma_rows_of_tree(rows, tree, samples, Some(least), top);
    lemma_row_at(tree.roots@, 0, least, top, a);
    lemma_row_at(tree.roots@, 0, least, top, b);
    lemma_row_order(tree.roots@, 0, least, top, a, b);
    let x = row_at(tree.roots@, 0, Some(least), top, a);
    let y = row_at(tree.roots@, 0, Some(least), top, b);
    assert(tree_row_models(rows)[x] == rows[x]@);
    assert(tree_row_models(rows)[y] == rows[y]@);
    (x, y)
}

/// The function with the most exclusive events, where one has any.
pub open spec fn hottest_of(rows: Seq<FunctionStat>) -> Seq<char> {
    if rows.len() > 0 && rows[0].self_events > 0 {
        rows[0].key@
    } else {
        "-"@
    }
}

/// A thread in the overview.
pub struct ThreadEntry {
    /// The thread's index.
    pub index: usize,
    /// Its events.
    pub events: u64,
    /// Its label.
    pub label: String,
    /// Its hottest function, `-` where it has none.
    pub hottest: String,
}

/// The entry describes the thread at `index`.
pub open spec fn is_entry<T>(
    entry: ThreadEntry,
    threads: Seq<ThreadModel<T>>,
    index: usize,
) -> bool {
    &&& entry.index == index
    &&& entry.events == weight_sum(threads[index as int].samples)
    &&& entry.label@ == threads[index as int].label()
    &&& exists|rows: Seq<FunctionStat>| #[trigger]
        is_flat_profile(rows, threads[index as int]) && entry.hottest@ == hottest_of(rows)
}

/// The overview of the threads: the first eight in order.
pub fn overview<T>(profile: &Profile<T>, order: &Vec<usize>) -> (r: Vec<ThreadEntry>)
    requires
        forall|i: int|
            0 <= i < breadth(order@.len(), 8) ==> (#[trigger] order@[i] as int) < profile@.len()
                && countable(profile@[order@[i] as int]),
    ensures
        r@.len() == breadth(order@.len(), 8),
        forall|i: int|
            0 <= i < r@.len() ==> is_entry(#[trigger] r@[i], profile@, order@[i]),
{
    let mut entries: Vec<ThreadEntry> = Vec::new();
    let shown = if order.len() < 8 {
        order.len()
    } else {
        8
    };
    for i in 0..shown
        invariant
            shown == breadth(order@.len(), 8),
            forall|i: int|
                0 <= i < breadth(order@.len(), 8) ==> (#[trigger] order@[i] as int)
                    < profile@.len() && countable(profile@[order@[i] as int]),
            entries@.len() == i,
            forall|k: int| 0 <= k < i ==> is_entry(#[trigger] entries@[k], profile@, order@[k]),
    {
        let index = order[i];
        let thread = &profile.threads[index];
        proof {
            assert(thread@ == profile@[index as int]);
            assert(thread.samples.len() <= usize::MAX);
            lemma_events_fit(thread@);
        }
        let rows = flat_profile(thread);
        let hottest = if rows.len() > 0 && rows[0].self_events > 0 {
            rows[0].key.as_str().to_string()
        } else {
            "-".to_string()
        };
        assert(is_flat_profile(rows@, thread@) && hottest@ == hottest_of(rows@));
        entries.push(
            ThreadEntry { index, events: thread.event_count(), label: thread.label(), hottest },
        );
    }
    entries
}

/// The hottest function of a thread is the first with any exclusive events.
pub proof fn law_hottest_is_first<T>(rows: Seq<FunctionStat>, t: ThreadModel<T>, i: int)
    requires
        is_flat_profile(rows, t),
        0 <= i < rows.len(),
    ensures
        rows[i].self_events <= rows[0].self_events,
        hottest_of(rows) == "-"@ || hottest_of(rows) == rows[0].key@,
        rows[i].self_events > 0 ==> hottest_of(rows) == rows[0].key@,
{
}

// ---------------------------------------------------------------------------
// Lines of text
// ---------------------------------------------------------------------------

/// Appends a number, aligned to the right in a column.
fn push_count(out: &mut String, n: u64, width: usize)
    ensures
        final(out)@ == old(out)@ + padded(decimal(n as nat), width as nat),
{
    let mut number = String::new();
    push_decimal(&mut number, n);
    assert(number@ =~= decimal(n as nat));
    push_padded(out, number.as_str(), width);
}

/// The first line of a report.
pub fn report_line(samples: usize, events: u64, threads: usize, duration: &str) -> (r: String)
    ensures
        r@ == "profile: "@ + decimal(samples as nat) + " samples, "@ + decimal(events as nat)
            + " events, "@ + decimal(threads as nat) + " threads, "@ + duration@,
{
    let mut out = String::new();
    out.append("profile: ");
    push_decimal(&mut out, samples as u64);
    out.append(" samples, ");
    push_decimal(&mut out, events);
    out.append(" events, ");
    push_decimal(&mut out, threads as u64);
    out.append(" threads, ");
    out.append(duration);
    assert(out@ =~= "profile: "@ + decimal(samples as nat) + " samples, "@ + decimal(events as nat)
        + " events, "@ + decimal(threads as nat) + " threads, "@ + duration@);
    out
}

/// The line of a thread in the overview; `pct` is its share of all events.
pub fn overview_line(entry: &ThreadEntry, pct: &str) -> (r: String)
    ensures
        r@ == "  ["@ + decimal(entry.index as nat) + "] "@ + padded(pct@, 5) + "%  "@ + padded(
            decimal(entry.events as nat),
            10,
        ) + " ev  "@ + entry.label@ + "  hot:"@ + entry.hottest@,
{
    let mut out = String::new();
    out.append("  [");
    push_decimal(&mut out, entry.index as u64);
    out.append("] ");
    push_padded(&mut out, pct, 5);
    out.append("%  ");
    push_count(&mut out, entry.events, 10);
    out.append(" ev  ");
    out.append(entry.label.as_str());
    out.append("  hot:");
    out.append(entry.hottest.as_str());
    assert(out@ =~= "  ["@ + decimal(entry.index as nat) + "] "@ + padded(pct@, 5) + "%  "@
        + padded(decimal(entry.events as nat), 10) + " ev  "@ + entry.label@ + "  hot:"@
        + entry.hottest@);
    out
}

/// The line that says how many threads the overview leaves out.
pub fn more_line(left_out: usize) -> (r: String)
    ensures
        r@ == "  ... "@ + decimal(left_out as nat) + " more (use --all)"@,
{
    let mut out = String::new();
    out.append("  ... ");
    push_decimal(&mut out, left_out as u64);
    out.append(" more (use --all)");
    assert(out@ =~= "  ... "@ + decimal(left_out as nat) + " more (use --all)"@);
    out
}

/// The text of the title of a thread's part of the report.
pub open spec fn title_text(index: int, label: Seq<char>, events: u64) -> Seq<char> {
    "=== thread ["@ + decimal(index as nat) + "] "@ + label + " — "@ + decimal(events as nat)
        + " events ==="@
}

/// The title of a thread's part of the report.
pub fn thread_title(index: usize, label: &str, events: u64) -> (r: String)
    ensures
        r@ == title_text(index as int, label@, events),
{
    let mut out = String::new();
    out.append("=== thread [");
    push_decimal(&mut out, index as u64);
    out.append("] ");
    out.append(label);
    out.append(" — ");
    push_decimal(&mut out, events);
    out.append(" events ===");
    assert(out@ =~= title_text(index as int, label@, events));
    out
}

/// The shares of a function in its thread's events, in percent, as they are written.
pub struct Share {
    /// The share of its exclusive events.
    pub self_pct: String,
    /// The share of its inclusive events.
    pub total_pct: String,
}

/// The text of the line of a function in a table.
pub open spec fn table_text(
    self_pct: Seq<char>,
    total_pct: Seq<char>,
    self_events: u64,
    key: Seq<char>,
) -> Seq<char> {
    "  "@ + padded(self_pct, 5) + "  "@ + padded(total_pct, 6) + "  "@ + padded(
        decimal(self_events as nat),
        10,
    ) + "  "@ + key
}

/// The line of a function in a table.
pub fn table_line(self_pct: &str, total_pct: &str, self_events: u64, key: &str) -> (r: String)
    ensures
        r@ == table_text(self_pct@, total_pct@, self_events, key@),
{
    let mut out = String::new();
    out.append("  ");
    push_padded(&mut out, self_pct, 5);
    out.append("  ");
    push_padded(&mut out, total_pct, 6);
    out.append("  ");
    push_count(&mut out, self_events, 10);
    out.append("  ");
    out.append(key);
    assert(out@ =~= table_text(self_pct@, total_pct@, self_events, key@));
    out
}

/// The lines of the functions in a table.
pub open spec fn row_texts(listing: ListingModel, shares: Seq<Share>) -> Seq<Seq<char>> {
    Seq::new(
        listing.rows.len(),
        |i: int|
            table_text(
                shares[i].self_pct@,
                shares[i].total_pct@,
                listing.rows[i].self_events,
                listing.rows[i].key,
            ),
    )
}

/// The lines of a thread's table: the title, the heads of the columns, and a line for
/// each function that is listed, or one that says that none is.
pub open spec fn table_texts(
    listing: ListingModel,
    shares: Seq<Share>,
    min_pct: Seq<char>,
) -> Seq<Seq<char>> {
    seq![
        title_text(listing.index, listing.label, listing.events),
        "  self%  total%        self  function"@,
    ] + if listing.rows.len() == 0 {
        seq!["  (no function above --min-pct "@ + min_pct + "%)"@]
    } else {
        row_texts(listing, shares)
    }
}

/// The table of a thread, line by line: each function that is listed with its shares.
pub fn table_lines(listing: &ThreadListing, shares: &Vec<Share>, min_pct: &str) -> (r: Vec<String>)
    requires
        shares@.len() == listing.rows@.len(),
    ensures
        views(r@) == table_texts(listing@, shares@, min_pct@),
{
    let mut out: Vec<String> = Vec::new();
    out.push(thread_title(listing.index, listing.label.as_str(), listing.events));
    out.push("  self%  total%        self  function".to_string());
    let n = listing.rows.len();
    let ghost all = table_texts(listing@, shares@, min_pct@);
    if n == 0 {
        let mut line = String::new();
        line.append("  (no function above --min-pct ");
        line.append(min_pct);
        line.append("%)");
        assert(line@ =~= "  (no function above --min-pct "@ + min_pct@ + "%)"@);
        out.push(line);
    }
    for i in 0..n
        invariant
            n == listing.rows@.len() == shares@.len(),
            all == table_texts(listing@, shares@, min_pct@),
            n > 0 ==> views(out@) == all.take(2 + i),
            n == 0 ==> views(out@) == all,
    {
        let row = &listing.rows[i];
        let share = &shares[i];
        let line = table_line(
            share.self_pct.as_str(),
            share.total_pct.as_str(),
            row.self_events,
            row.key.as_str(),
        );
        assert(line@ == all[2 + i]);
        out.push(line);
        assert(views(out@) =~= all.take(2 + i + 1));
    }
    assert(views(out@) =~= all);
    out
}

/// The line of a span in a tree, indented by two columns for each level.
pub fn tree_line(total_pct: &str, self_pct: &str, depth: usize, key: &str) -> (r: String)
    ensures
        r@ == "  "@ + padded(total_pct@, 6) + "  "@ + padded(self_pct@, 5) + "  "@ + spaces(
            2 * depth as nat,
        ) + key@,
{
    let mut out = String::new();
    out.append("  ");
    push_padded(&mut out, total_pct, 6);
    out.append("  ");
    push_padded(&mut out, self_pct, 5);
    out.append("  ");
    push_spaces(&mut out, depth);
    push_spaces(&mut out, depth);
    out.append(key);
    assert(spaces(depth as nat) + spaces(depth as nat) =~= spaces(2 * depth as nat));
    assert(out@ =~= "  "@ + padded(total_pct@, 6) + "  "@ + padded(self_pct@, 5) + "  "@ + spaces(
        2 * depth as nat,
    ) + key@);
    out
}

// ---------------------------------------------------------------------------
// JSON
// ---------------------------------------------------------------------------

/// How a character is written in a JSON string.
pub open spec fn escaped(c: char) -> Seq<char> {
    if c == '"' {
        seq!['\\', '"']
    } else if c == '\\' {
        seq!['\\', '\\']
    } else if c == '\n' {
        seq!['\\', 'n']
    } else if c == '\t' {
        seq!['\\', 't']
    } else if (c as int) < 0x20 {
        seq!['\\', 'u', '0', '0', digit_char(c as int / 16), digit_char(c as int % 16)]
    } else {
        seq![c]
    }
}

/// How a text is written between the quotes of a JSON string.
pub open spec fn escapes(s: Seq<char>) -> Seq<char>
    decreases s.len(),
{
    if s.len() == 0 {
        Seq::empty()
    } else {
        escaped(s[0]) + escapes(s.skip(1))
    }
}

/// A text as a JSON string.
pub open spec fn json_text(s: Seq<char>) -> Seq<char> {
    seq!['"'] + escapes(s) + seq!['"']
}

/// Appends a character as it is written in a JSON string.
fn push_escaped(out: &mut String, c: char)
    ensures
        final(out)@ == old(out)@ + escaped(c),
{
    let ghost start = out@;
    if c == '"' {
        out.push('\\');
        out.push('"');
    } else if c == '\\' {
        out.push('\\');
        out.push('\\');
    } else if c == '\n' {
        out.push('\\');
        out.push('n');
    } else if c == '\t' {
        out.push('\\');
        out.push('t');
    } else if (c as u32) < 0x20 {
        let n: u32 = c as u32;
        out.push('\\');
        out.push('u');
        out.push('0');
        out.push('0');
        out.push(crate::text::digit_of((n / 16) as u64));
        out.push(crate::text::digit_of((n % 16) as u64));
    } else {
        out.push(c);
    }
    assert(out@ =~= start + escaped(c));
}

/// Writes a text as a JSON string.
pub fn json_string(s: &str) -> (r: String)
    ensures
        r@ == json_text(s@),
{
    let chars = chars_of(s);
    let n = chars.len();
    let mut out = String::new();
    out.push('"');
    assert(s@.skip(0) =~= s@);
    assert(out@ + escapes(s@.skip(0)) =~= seq!['"'] + escapes(s@));
    for i in 0..n
        invariant
            n == chars@.len(),
            chars@ == s@,
            out@ + escapes(s@.skip(i as int)) == seq!['"'] + escapes(s@),
    {
        let c: char = chars[i];
        let ghost before = out@;
        push_escaped(&mut out, c);
        proof {
            assert(s@.skip(i as int).skip(1) =~= s@.skip(i + 1));
            assert(out@ + escapes(s@.skip(i + 1)) =~= before + (escaped(c) + escapes(
                s@.skip(i + 1),
            )));
        }
    }
    out.push('"');
    proof {
        assert(s@.skip(n as int).len() == 0);
        assert(out@ =~= json_text(s@));
    }
    out
}

/// The value of a hexadecimal digit, if it is one.
pub open spec fn hex_value(c: char) -> Option<int> {
    if '0' <= c && c <= '9' {
        Some(c as int - '0' as int)
    } else if 'a' <= c && c <= 'f' {
        Some(c as int - 'a' as int + 10)
    } else if 'A' <= c && c <= 'F' {
        Some(c as int - 'A' as int + 10)
    } else {
        None
    }
}

/// The character whose number four hexadecimal digits write, if they are digits and
/// there is one: half of a surrogate pair is no character.
pub open spec fn hex_char(s: Seq<char>) -> Option<char> {
    match (hex_value(s[0]), hex_value(s[1]), hex_value(s[2]), hex_value(s[3])) {
        (Some(a), Some(b), Some(c), Some(d)) => {
            let n = ((a * 16 + b) * 16 + c) * 16 + d;
            if 0xd800 <= n <= 0xdfff {
                None
            } else {
                Some(n as char)
            }
        },
        _ => None,
    }
}

/// What a reader makes of the text between the quotes of a JSON string. A character
/// that is written as a surrogate pair is not read.
pub open spec fn unescaped(s: Seq<char>) -> Option<Seq<char>>
    decreases s.len(),
{
    if s.len() == 0 {
        Some(Seq::empty())
    } else if s[0] != '\\' {
        if s[0] == '"' || (s[0] as int) < 0x20 {
            None
        } else {
            prepended(s[0], unescaped(s.skip(1)))
        }
    } else if s.len() < 2 {
        None
    } else if s[1] == '"' || s[1] == '\\' || s[1] == '/' {
        prepended(s[1], unescaped(s.skip(2)))
    } else if s[1] == 'b' {
        prepended('\u{8}', unescaped(s.skip(2)))
    } else if s[1] == 'f' {
        prepended('\u{c}', unescaped(s.skip(2)))
    } else if s[1] == 'r' {
        prepended('\r', unescaped(s.skip(2)))
    } else if s[1] == 'n' {
        prepended('\n', unescaped(s.skip(2)))
    } else if s[1] == 't' {
        prepended('\t', unescaped(s.skip(2)))
    } else if s[1] == 'u' && s.len() >= 6 {
        match hex_char(s.subrange(2, 6)) {
            Some(c) => prepended(c, unescaped(s.skip(6))),
            None => None,
        }
    } else {
        None
    }
}

/// The text with a character before it.
pub open spec fn prepended(c: char, rest: Option<Seq<char>>) -> Option<Seq<char>> {
    match rest {
        Some(s) => Some(seq![c] + s),
        None => None,
    }
}

/// A text that is written as a JSON string reads back as the same text.
pub proof fn law_json_reads_back(s: Seq<char>)
    ensures
        unescaped(escapes(s)) == Some(s),
    decreases s.len(),
{
    if s.len() > 0 {
        let c = s[0];
        let rest = escapes(s.skip(1));
        let all = escapes(s);
        law_json_reads_back(s.skip(1));
        assert(all.skip(escaped(c).len() as int) =~= rest);
        assert(seq![c] + s.skip(1) =~= s);
        assert(all[0] == escaped(c)[0]);
        if c == '"' || c == '\\' || c == '\n' || c == '\t' {
            assert(all[1] == escaped(c)[1]);
        } else if (c as int) < 0x20 {
            assert(all[1] == 'u' && all[2] == '0' && all[3] == '0');
            assert(all[4] == digit_char(c as int / 16));
            assert(all[5] == digit_char(c as int % 16));
            let n = c as int;
            lemma_char(c);
            assert(0 <= n / 16 < 2) by (nonlinear_arith)
                requires
                    0 <= n < 0x20,
            ;
            assert(0 <= n % 16 < 16 && n == (n / 16) * 16 + n % 16) by (nonlinear_arith)
                requires
                    0 <= n,
            ;
            lemma_hex_digit(0);
            lemma_hex_digit(n / 16);
            lemma_hex_digit(n % 16);
            assert(all.subrange(2, 6) =~= seq![all[2], all[3], all[4], all[5]]);
            assert(hex_value('0') == Some(0int));
            assert(n as char == c);
            assert(hex_char(all.subrange(2, 6)) == Some(c));
        }
    } else {
        assert(s =~= Seq::<char>::empty());
    }
}

proof fn lemma_char(c: char)
    ensures
        0 <= c as int,
{
}

proof fn lemma_hex_digit(d: int)
    requires
        0 <= d < 16,
    ensures
        hex_value(digit_char(d)) == Some(d),
{
    if d < 10 {
        let c = ('0' as int + d) as char;
        assert(c as int == '0' as int + d);
    } else {
        let c = ('a' as int + (d - 10)) as char;
        assert(c as int == 'a' as int + (d - 10));
    }
}

/// The text of a function of the JSON report.
pub open spec fn function_text(
    row: RowModel,
    self_pct: Seq<char>,
    total_pct: Seq<char>,
) -> Seq<char> {
    "{\"function\":"@ + json_text(row.key) + ",\"self\":"@ + decimal(row.self_events as nat)
        + ",\"total\":"@ + decimal(row.total_events as nat) + ",\"self_pct\":"@ + self_pct
        + ",\"total_pct\":"@ + total_pct + "}"@
}

/// A function of the JSON report; the shares are numbers with two decimals.
pub fn json_function(row: &FunctionStat, self_pct: &str, total_pct: &str) -> (r: String)
    ensures
        r@ == function_text(row_model(*row), self_pct@, total_pct@),
{
    let mut out = String::new();
    let key = json_string(row.key.as_str());
    out.append("{\"function\":");
    out.append(key.as_str());
    out.append(",\"self\":");
    push_decimal(&mut out, row.self_events);
    out.append(",\"total\":");
    push_decimal(&mut out, row.total_events);
    out.append(",\"self_pct\":");
    out.append(self_pct);
    out.append(",\"total_pct\":");
    out.append(total_pct);
    out.append("}");
    assert(out@ =~= function_text(row_model(*row), self_pct@, total_pct@));
    out
}

/// The functions of a thread in the JSON report.
pub open spec fn function_texts(listing: ListingModel, shares: Seq<Share>) -> Seq<Seq<char>> {
    Seq::new(
        listing.rows.len(),
        |i: int| function_text(listing.rows[i], shares[i].self_pct@, shares[i].total_pct@),
    )
}

/// The text of a thread of the JSON report.
pub open spec fn thread_text(listing: ListingModel, shares: Seq<Share>) -> Seq<char> {
    "{\"index\":"@ + decimal(listing.index as nat) + ",\"label\":"@ + json_text(listing.label)
        + ",\"events\":"@ + decimal(listing.events as nat) + ",\"functions\":["@ + joined(
        function_texts(listing, shares),
        ","@,
    ) + "]}"@
}

/// A thread of the JSON report: each function that is listed with its shares.
pub fn json_thread(listing: &ThreadListing, shares: &Vec<Share>) -> (r: String)
    requires
        shares@.len() == listing.rows@.len(),
    ensures
        r@ == thread_text(listing@, shares@),
{
    let mut functions: Vec<String> = Vec::new();
    let ghost all = function_texts(listing@, shares@);
    let n = listing.rows.len();
    for i in 0..n
        invariant
            n == listing.rows@.len() == shares@.len(),
            all == function_texts(listing@, shares@),
            all.len() == n,
            views(functions@) == all.take(i as int),
    {
        let share = &shares[i];
        let function = json_function(
            &listing.rows[i],
            share.self_pct.as_str(),
            share.total_pct.as_str(),
        );
        let ghost before = views(functions@);
        assert(function@ == all[i as int]);
        functions.push(function);
        assert(views(functions@) =~= before.push(function@));
        assert(views(functions@) =~= all.take(i + 1));
    }
    assert(views(functions@) =~= all);
    assert(all.take(n as int) =~= all);
    let mut out = String::new();
    let name = json_string(listing.label.as_str());
    let list = join(&functions, n, ",");
    out.append("{\"index\":");
    push_decimal(&mut out, listing.index as u64);
    out.append(",\"label\":");
    out.append(name.as_str());
    out.append(",\"events\":");
    push_decimal(&mut out, listing.events);
    out.append(",\"functions\":[");
    out.append(list.as_str());
    out.append("]}");
    assert(out@ =~= thread_text(listing@, shares@));
    out
}

/// The threads of the JSON report.
pub open spec fn thread_texts(
    listings: Seq<ThreadListing>,
    shares: Seq<Vec<Share>>,
) -> Seq<Seq<char>> {
    Seq::new(listings.len(), |i: int| thread_text(listings[i]@, shares[i]@))
}

/// The JSON report on the threads that are listed.
pub fn json_report(
    samples: usize,
    events: u64,
    listings: &Vec<ThreadListing>,
    shares: &Vec<Vec<Share>>,
) -> (r: String)
    requires
        shares@.len() == listings@.len(),
        forall|i: int|
            0 <= i < listings@.len() ==> (#[trigger] shares@[i])@.len() == listings@[i].rows@.len(),
    ensures
        r@ == "{\"samples\":"@ + decimal(samples as nat) + ",\"events\":"@ + decimal(events as nat)
            + ",\"threads\":["@ + joined(thread_texts(listings@, shares@), ","@) + "]}"@,
{
    let mut threads: Vec<String> = Vec::new();
    let ghost all = thread_texts(listings@, shares@);
    let n = listings.len();
    for i in 0..n
        invariant
            n == listings@.len() == shares@.len(),
            forall|i: int|
                0 <= i < listings@.len() ==> (#[trigger] shares@[i])@.len()
                    == listings@[i].rows@.len(),
            all == thread_texts(listings@, shares@),
            all.len() == n,
            views(threads@) == all.take(i as int),
    {
        let thread = json_thread(&listings[i], &shares[i]);
        let ghost before = views(threads@);
        assert(thread@ == all[i as int]);
        threads.push(thread);
        assert(views(threads@) =~= before.push(thread@));
        assert(views(threads@) =~= all.take(i + 1));
    }
    assert(views(threads@) =~= all);
    assert(all.take(n as int) =~= all);
    let mut out = String::new();
    let list = join(&threads, n, ",");
    out.append("{\"samples\":");
    push_decimal(&mut out, samples as u64);
    out.append(",\"events\":");
    push_decimal(&mut out, events);
    out.append(",\"threads\":[");
    out.append(list.as_str());
    out.append("]}");
    assert(out@ =~= "{\"samples\":"@ + decimal(samples as nat) + ",\"events\":"@ + decimal(
        events as nat,
    ) + ",\"threads\":["@ + joined(thread_texts(listings@, shares@), ","@) + "]}"@);
    out
}

/// JSON holds the same data as the table: what is listed of a thread for the one, in
/// any call, is what is listed for the other. So both name the same functions, in the
/// same order, with the same exclusive events, whatever shares are written beside
/// them; and the table says that there is none where JSON lists none.
pub proof fn law_json_holds_the_table<T>(
    table: ThreadListing,
    json: ThreadListing,
    threads: Seq<ThreadModel<T>>,
    index: int,
    least: Option<u64>,
    top: nat,
    table_shares: Seq<Share>,
    json_shares: Seq<Share>,
    min_pct: Seq<char>,
)
    requires
        is_listing(table@, threads, index, least, top),
        is_listing(json@, threads, index, least, top),
    ensures
        table@ == json@,
        function_texts(json@, json_shares).len() == table@.rows.len(),
        table_texts(table@, table_shares, min_pct).len() == (if table@.rows.len() == 0 {
            3
        } else {
            2 + table@.rows.len()
        }),
        forall|k: int|
            0 <= k < table@.rows.len() ==> {
                let row = #[trigger] table@.rows[k];
                &&& table_texts(table@, table_shares, min_pct)[2 + k] == table_text(
                    table_shares[k].self_pct@,
                    table_shares[k].total_pct@,
                    row.self_events,
                    row.key,
                )
                &&& function_texts(json@, json_shares)[k] == function_text(
                    row,
                    json_shares[k].self_pct@,
                    json_shares[k].total_pct@,
                )
            },
{
    law_listing_is_determined(table@, json@, threads, index, least, top);
}

// ---------------------------------------------------------------------------
// What holds of the arguments
// ---------------------------------------------------------------------------

/// The names of the options.
pub open spec fn option_names() -> Seq<Seq<char>> {
    seq![
        "--format"@,
        "-f"@,
        "--top"@,
        "-n"@,
        "--thread"@,
        "-t"@,
        "--all"@,
        "-a"@,
        "--min-pct"@,
        "-m"@,
        "--offset"@,
        "-h"@,
        "--help"@,
    ]
}

proof fn lemma_option_names()
    ensures
        option_named("--format"@) is Format,
        option_named("-f"@) is Format,
        option_named("--top"@) is Top,
        option_named("-n"@) is Top,
        option_named("--thread"@) is Thread,
        option_named("-t"@) is Thread,
        option_named("--all"@) is All,
        option_named("-a"@) is All,
        option_named("--min-pct"@) is MinPct,
        option_named("-m"@) is MinPct,
        option_named("--offset"@) is Offset,
        option_named("-h"@) is Help,
        option_named("--help"@) is Help,
        forall|arg: Seq<char>|
            !option_names().contains(arg) ==> #[trigger] option_named(arg) is Path,
{
    reveal_strlit("--format");
    reveal_strlit("-f");
    reveal_strlit("--top");
    reveal_strlit("-n");
    reveal_strlit("--thread");
    reveal_strlit("-t");
    reveal_strlit("--all");
    reveal_strlit("-a");
    reveal_strlit("--min-pct");
    reveal_strlit("-m");
    reveal_strlit("--offset");
    reveal_strlit("-h");
    reveal_strlit("--help");
    assert("--format"@[2] == 'f' && "--format"@.len() == 8);
    assert("-f"@[1] == 'f' && "-f"@.len() == 2);
    assert("--top"@[2] == 't' && "--top"@.len() == 5);
    assert("-n"@[1] == 'n' && "-n"@.len() == 2);
    assert("--thread"@[2] == 't' && "--thread"@.len() == 8);
    assert("-t"@[1] == 't' && "-t"@.len() == 2);
    assert("--all"@[2] == 'a' && "--all"@.len() == 5);
    assert("-a"@[1] == 'a' && "-a"@.len() == 2);
    assert("--min-pct"@.len() == 9);
    assert("-m"@[1] == 'm' && "-m"@.len() == 2);
    assert("--offset"@[2] == 'o' && "--offset"@.len() == 8);
    assert("-h"@[1] == 'h' && "-h"@.len() == 2);
    assert("--help"@.len() == 6);
    let names = option_names();
    assert forall|arg: Seq<char>| !names.contains(arg) implies #[trigger] option_named(
        arg,
    ) is Path by {
        assert(names[0] != arg && names[1] != arg && names[2] != arg && names[3] != arg && names[4]
            != arg && names[5] != arg && names[6] != arg && names[7] != arg && names[8] != arg
            && names[9] != arg && names[10] != arg && names[11] != arg && names[12] != arg);
    }
}

/// An option and its value set one thing and leave the rest to what follows, wherever
/// they stand: a number of rows or the index of a thread is the number that the value
/// writes. A value that does not fit is refused, and so is an option without one.
pub proof fn law_options_with_values(
    name: Seq<char>,
    value: Seq<char>,
    n: usize,
    rest: Seq<Seq<char>>,
    state: ArgsModel,
)
    ensures
        name == "--top"@ || name == "-n"@ ==> {
            &&& parsed_args(seq![name, decimal(n as nat)] + rest, state) == parsed_args(
                rest,
                (ArgsModel { top: n, ..state }),
            )
            &&& parsed_number(value, usize::MAX as nat) is None ==> parsed_args(
                seq![name, value] + rest,
                state,
            ) == Err::<ArgsModel, _>("--top needs a number"@)
        },
        name == "--thread"@ || name == "-t"@ ==> {
            &&& parsed_args(seq![name, decimal(n as nat)] + rest, state) == parsed_args(
                rest,
                (ArgsModel { thread: Some(n), ..state }),
            )
            &&& parsed_number(value, usize::MAX as nat) is None ==> parsed_args(
                seq![name, value] + rest,
                state,
            ) == Err::<ArgsModel, _>("--thread needs an index"@)
        },
        name == "--min-pct"@ || name == "-m"@ ==> {
            &&& is_float_text(value) ==> parsed_args(seq![name, value] + rest, state)
                == parsed_args(rest, (ArgsModel { min_pct: Some(value), ..state }))
            &&& !is_float_text(value) ==> parsed_args(seq![name, value] + rest, state) == Err::<
                ArgsModel,
                _,
            >("--min-pct needs a number"@)
        },
        name == "--format"@ || name == "-f"@ ==> {
            &&& parsed_args(seq![name, "table"@] + rest, state) == parsed_args(
                rest,
                (ArgsModel { layout: Layout::Table, ..state }),
            )
            &&& parsed_args(seq![name, "tree"@] + rest, state) == parsed_args(
                rest,
                (ArgsModel { layout: Layout::Tree, ..state }),
            )
            &&& parsed_args(seq![name, "json"@] + rest, state) == parsed_args(
                rest,
                (ArgsModel { layout: Layout::Json, ..state }),
            )
            &&& value != "table"@ && value != "tree"@ && value != "json"@ ==> parsed_args(
                seq![name, value] + rest,
                state,
            ) == Err::<ArgsModel, _>("unknown format: "@ + value)
        },
        name == "--top"@ || name == "-n"@ || name == "--thread"@ || name == "-t"@ || name
            == "--min-pct"@ || name == "-m"@ || name == "--format"@ || name == "-f"@
            ==> parsed_args(seq![name], state) == Err::<ArgsModel, _>(name + " needs a value"@),
{
    lemma_option_names();
    reveal_strlit("table");
    reveal_strlit("tree");
    reveal_strlit("json");
    assert("table"@.len() == 5 && "tree"@.len() == 4 && "json"@.len() == 4);
    assert("tree"@[0] == 't' && "json"@[0] == 'j');
    law_decimal_reads_back(n as nat, usize::MAX as nat);
    assert((seq![name, value] + rest).skip(2) =~= rest);
    assert((seq![name, decimal(n as nat)] + rest).skip(2) =~= rest);
    assert((seq![name, "table"@] + rest).skip(2) =~= rest);
    assert((seq![name, "tree"@] + rest).skip(2) =~= rest);
    assert((seq![name, "json"@] + rest).skip(2) =~= rest);
}

/// An option without a value sets one thing, wherever it stands. The one argument that is
/// no option is the path: there has to be one, and there may be no other. Asking for help
/// ends the reading.
pub proof fn law_flags_and_path(arg: Seq<char>, rest: Seq<Seq<char>>, state: ArgsModel)
    ensures
        arg == "--all"@ || arg == "-a"@ ==> parsed_args(seq![arg] + rest, state) == parsed_args(
            rest,
            (ArgsModel { all_threads: true, ..state }),
        ),
        arg == "--offset"@ ==> parsed_args(seq![arg] + rest, state) == parsed_args(
            rest,
            (ArgsModel { include_offset: true, ..state }),
        ),
        arg == "-h"@ || arg == "--help"@ ==> parsed_args(seq![arg] + rest, state) == Err::<
            ArgsModel,
            _,
        >("show performance hot spots in a profile"@),
        !option_names().contains(arg) && state.path is None ==> parsed_args(
            seq![arg] + rest,
            state,
        ) == parsed_args(rest, (ArgsModel { path: Some(arg), ..state })),
        !option_names().contains(arg) && state.path is Some ==> parsed_args(
            seq![arg] + rest,
            state,
        ) == Err::<ArgsModel, _>("unexpected argument: "@ + arg),
        state.path is None ==> parsed_args(Seq::empty(), state) == Err::<ArgsModel, _>(
            "a profile path is required"@,
        ),
        state.path is Some ==> parsed_args(Seq::empty(), state) == Ok::<_, Seq<char>>(state),
{
    lemma_option_names();
    assert((seq![arg] + rest).skip(1) =~= rest);
}

/// With a path alone, the report is a table of twenty rows on the busiest thread, without
/// offsets and with the usual least share.
pub proof fn law_default_args(path: Seq<char>)
    requires
        !option_names().contains(path),
    ensures
        ({
            let args = parsed_args(seq![path], default_args());
            &&& args is Ok
            &&& args->Ok_0.path == Some(path)
            &&& args->Ok_0.layout is Table
            &&& args->Ok_0.top == 20
            &&& args->Ok_0.thread is None
            &&& !args->Ok_0.all_threads
            &&& args->Ok_0.min_pct is None
            &&& !args->Ok_0.include_offset
        }),
{
    lemma_option_names();
    assert(seq![path].skip(1) =~= Seq::<Seq<char>>::empty());
    assert(parsed_args(seq![path].skip(1), (ArgsModel { path: Some(path), ..default_args() }))
        is Ok);
}

/// One thread is reported on where its index is given, all where all are asked for, and
/// else the busiest, where there is one.
pub proof fn law_selection(order: Seq<usize>, i: usize, all: bool)
    ensures
        selection(order, Some(i), all).len() == 1,
        selection(order, Some(i), all)[0] == i,
        selection(order, None, true) == order,
        order.len() == 0 ==> selection(order, None, all).len() == 0,
        order.len() > 0 ==> selection(order, None, false).len() == 1 && selection(
            order,
            None,
            false,
        )[0] == order[0],
{
}

// ---------------------------------------------------------------------------
// What holds of the listings
// ---------------------------------------------------------------------------

proof fn lemma_shown_is_filtered(
    rows: Seq<FunctionStat>,
    n: int,
    least: Option<u64>,
    top: nat,
)
    requires
        0 <= n <= rows.len(),
    ensures
        ({
            let hot = rows.take(n).filter(
                |r: FunctionStat| least is Some && r.self_events >= least->0,
            );
            picked(rows, shown_rows(rows, n, least, top)) == hot.take(
                if hot.len() < top {
                    hot.len() as int
                } else {
                    top as int
                },
            )
        }),
    decreases n,
{
    reveal(Seq::filter);
    let p = |r: FunctionStat| least is Some && r.self_events >= least->0;
    let hot = rows.take(n).filter(p);
    let k = if hot.len() < top {
        hot.len() as int
    } else {
        top as int
    };
    if n == 0 {
        assert(picked(rows, shown_rows(rows, n, least, top)) =~= hot.take(k));
    } else {
        lemma_shown_is_filtered(rows, n - 1, least, top);
        assert(rows.take(n).drop_last() =~= rows.take(n - 1));
        assert(rows.take(n).last() == rows[n - 1]);
        let before = rows.take(n - 1).filter(p);
        let shown = shown_rows(rows, n - 1, least, top);
        let j = if before.len() < top {
            before.len() as int
        } else {
            top as int
        };
        assert(picked(rows, shown) == before.take(j));
        assert(picked(rows, shown).len() == shown.len());
        let now = shown_rows(rows, n, least, top);
        assert(p(rows[n - 1]) == is_above(rows[n - 1].self_events, least));
        if p(rows[n - 1]) {
            assert(hot =~= before.push(rows[n - 1]));
            if before.len() < top {
                assert(now == shown.push(n - 1));
                assert(picked(rows, now) =~= picked(rows, shown).push(rows[n - 1]));
                assert(before.take(j) =~= before);
                assert(hot.take(k) =~= hot);
            } else {
                assert(now == shown);
                assert(hot.take(k) =~= before.take(j));
            }
        } else {
            assert(hot =~= before);
            assert(now == shown);
        }
        assert(picked(rows, now) =~= hot.take(k));
    }
}

/// What is shown of a table is what reaches the least number of exclusive events, in the
/// order of the table, cut after the first `top`.
pub proof fn law_shown_rows(rows: Seq<FunctionStat>, least: Option<u64>, top: nat)
    ensures
        ({
            let hot = rows.filter(|r: FunctionStat| least is Some && r.self_events >= least->0);
            picked(rows, shown_rows(rows, rows.len() as int, least, top)) == hot.take(
                if hot.len() < top {
                    hot.len() as int
                } else {
                    top as int
                },
            )
        }),
{
    lemma_shown_is_filtered(rows, rows.len() as int, least, top);
    assert(rows.take(rows.len() as int) =~= rows);
}

/// A listing has the index, the label and all events of its thread, and of the thread's
/// flat profile the first `top` rows that reach the least number of exclusive events, each
/// with its name and its events.
pub proof fn law_listing<T>(
    listing: ThreadListing,
    profile: Profile<T>,
    index: int,
    least: Option<u64>,
    top: nat,
    rows: Seq<FunctionStat>,
    k: int,
)
    requires
        is_listing(listing@, profile@, index, least, top),
        0 <= index < profile.threads@.len(),
        is_flat_profile(rows, profile.threads@[index]@),
    ensures
        listing.index == index,
        listing.label@ == profile.threads@[index]@.label(),
        listing.events == profile.threads@[index].samples@.fold_left(
            0int,
            |sum: int, s: Sample<T>| sum + s.weight,
        ),
        ({
            let hot = rows.filter(|r: FunctionStat| least is Some && r.self_events >= least->0);
            let n = if hot.len() < top {
                hot.len()
            } else {
                top
            };
            &&& listing.rows@.len() == n
            &&& 0 <= k < n ==> {
                &&& listing.rows@[k].key@ == hot[k].key@
                &&& listing.rows@[k].self_events == hot[k].self_events
                &&& listing.rows@[k].total_events == hot[k].total_events
            }
        }),
{
    let thread = profile.threads@[index];
    assert(profile@[index] == thread@);
    let made = ListingModel {
        rows: row_models(picked(rows, shown_rows(rows, rows.len() as int, least, top))),
        ..listing@
    };
    assert(is_flat_profile(rows, profile@[index]) && made.rows == row_models(
        picked(rows, shown_rows(rows, rows.len() as int, least, top)),
    ));
    assert(is_listing(made, profile@, index, least, top));
    law_listing_is_determined(listing@, made, profile@, index, least, top);
    law_shown_rows(rows, least, top);
    assert(listing@.rows.len() == listing.rows@.len());
    let hot = rows.filter(|r: FunctionStat| least is Some && r.self_events >= least->0);
    let shown = picked(rows, shown_rows(rows, rows.len() as int, least, top));
    if 0 <= k < listing.rows@.len() {
        assert(listing@.rows[k] == row_model(listing.rows@[k]));
        assert(made.rows[k] == row_model(shown[k]));
        assert(shown[k] == hot[k]);
    }
    lemma_events_through(thread.samples@, thread@.samples, Seq::empty());
}

/// Of the selected threads exactly those are listed that there are, in the order in which
/// they were selected.
pub proof fn law_found(selected: Seq<usize>, n: int, threads: nat)
    requires
        0 <= n <= selected.len(),
    ensures
        forall|a: int|
            0 <= a < found(selected, n, threads).len() ==> 0 <= #[trigger] found(
                selected,
                n,
                threads,
            )[a] < n && selected[found(selected, n, threads)[a]] < threads,
        forall|a: int, b: int|
            0 <= a < b < found(selected, n, threads).len() ==> #[trigger] found(
                selected,
                n,
                threads,
            )[a] < #[trigger] found(selected, n, threads)[b],
        forall|i: int|
            0 <= i < n && (#[trigger] selected[i]) < threads ==> found(
                selected,
                n,
                threads,
            ).contains(i),
    decreases n,
{
    if n > 0 {
        law_found(selected, n - 1, threads);
        let before = found(selected, n - 1, threads);
        let all = found(selected, n, threads);
        assert forall|i: int| 0 <= i < n && (#[trigger] selected[i]) < threads implies all.contains(
            i,
        ) by {
            if i < n - 1 {
                let a = choose|a: int| 0 <= a < before.len() && before[a] == i;
                assert(all[a] == i);
            } else {
                assert(all[all.len() - 1] == i);
            }
        }
    }
}

/// An entry of the overview has the index, the label and the events of its thread, and as
/// the hottest function the first one of the flat profile, unless no sample was taken in
/// any function.
pub proof fn law_overview_entry<T>(
    entry: ThreadEntry,
    profile: Profile<T>,
    index: usize,
    rows: Seq<FunctionStat>,
    i: int,
)
    requires
        is_entry(entry, profile@, index),
        (index as int) < profile.threads@.len(),
        is_flat_profile(rows, profile.threads@[index as int]@),
        0 <= i < rows.len(),
    ensures
        entry.index == index,
        entry.label@ == profile.threads@[index as int]@.label(),
        entry.events == profile.threads@[index as int].samples@.fold_left(
            0int,
            |sum: int, s: Sample<T>| sum + s.weight,
        ),
        rows[i].self_events <= rows[0].self_events,
        rows[0].self_events > 0 ==> entry.hottest@ == rows[0].key@,
        rows[0].self_events == 0 ==> entry.hottest@ == "-"@,
{
    let thread = profile.threads@[index as int];
    assert(profile@[index as int] == thread@);
    let other = choose|other: Seq<FunctionStat>| #[trigger]
        is_flat_profile(other, thread@) && entry.hottest@ == hottest_of(other);
    law_flat_profile_is_determined(rows, other, thread@, 0);
    law_hottest_is_first(rows, thread@, i);
    lemma_events_through(thread.samples@, thread@.samples, Seq::empty());
}

/// Eight threads are shown, or all where there are fewer.
pub proof fn law_breadth(n: nat, top: nat)
    ensures
        breadth(n, top) <= n,
        breadth(n, top) <= top,
        breadth(n, top) == n || breadth(n, top) == top,
{
}

// ---------------------------------------------------------------------------
// What holds of the texts
// ---------------------------------------------------------------------------

/// A field of a JSON object.
pub open spec fn json_field(name: Seq<char>, value: Seq<char>) -> Seq<char> {
    seq!['"'] + name + seq!['"', ':'] + value
}

/// A JSON object with the given fields.
pub open spec fn json_object(fields: Seq<Seq<char>>) -> Seq<char> {
    seq!['{'] + joined(fields, seq![',']) + seq!['}']
}

/// A function of the JSON report is an object with its name as a string, its exclusive and
/// its inclusive events, and its shares.
pub proof fn law_json_function(row: RowModel, self_pct: Seq<char>, total_pct: Seq<char>)
    ensures
        function_text(row, self_pct, total_pct) == json_object(
            seq![
                json_field("function"@, json_text(row.key)),
                json_field("self"@, decimal(row.self_events as nat)),
                json_field("total"@, decimal(row.total_events as nat)),
                json_field("self_pct"@, self_pct),
                json_field("total_pct"@, total_pct),
            ],
        ),
{
    reveal_strlit("function");
    reveal_strlit("self");
    reveal_strlit("total");
    reveal_strlit("self_pct");
    reveal_strlit("total_pct");
    reveal_strlit("{\"function\":");
    reveal_strlit(",\"self\":");
    reveal_strlit(",\"total\":");
    reveal_strlit(",\"self_pct\":");
    reveal_strlit(",\"total_pct\":");
    reveal_strlit("}");
    let comma = seq![','];
    let a = json_field("function"@, json_text(row.key));
    let b = json_field("self"@, decimal(row.self_events as nat));
    let c = json_field("total"@, decimal(row.total_events as nat));
    let d = json_field("self_pct"@, self_pct);
    let e = json_field("total_pct"@, total_pct);
    lemma_five(a, b, c, d, e, comma);
    assert("{\"function\":"@ =~= seq!['{', '"'] + "function"@ + seq!['"', ':']);
    assert(",\"self\":"@ =~= seq![',', '"'] + "self"@ + seq!['"', ':']);
    assert(",\"total\":"@ =~= seq![',', '"'] + "total"@ + seq!['"', ':']);
    assert(",\"self_pct\":"@ =~= seq![',', '"'] + "self_pct"@ + seq!['"', ':']);
    assert(",\"total_pct\":"@ =~= seq![',', '"'] + "total_pct"@ + seq!['"', ':']);
    assert("}"@ =~= seq!['}']);
    assert(function_text(row, self_pct, total_pct) =~= seq!['{'] + (a + comma + b + comma + c + comma
        + d + comma + e) + seq!['}']);
}

proof fn lemma_five(
    a: Seq<char>,
    b: Seq<char>,
    c: Seq<char>,
    d: Seq<char>,
    e: Seq<char>,
    sep: Seq<char>,
)
    ensures
        joined(seq![a, b, c, d, e], sep) == a + sep + b + sep + c + sep + d + sep + e,
        joined(seq![a, b, c, d], sep) == a + sep + b + sep + c + sep + d,
        joined(seq![a, b, c], sep) == a + sep + b + sep + c,
{
    assert(joined(seq![a], sep) == a);
    assert(seq![a, b].drop_last() =~= seq![a]);
    assert(joined(seq![a, b], sep) == a + sep + b);
    assert(seq![a, b, c].drop_last() =~= seq![a, b]);
    assert(joined(seq![a, b, c], sep) == a + sep + b + sep + c);
    assert(seq![a, b, c, d].drop_last() =~= seq![a, b, c]);
    assert(joined(seq![a, b, c, d], sep) == a + sep + b + sep + c + sep + d);
    assert(seq![a, b, c, d, e].drop_last() =~= seq![a, b, c, d]);
}

/// A thread of the JSON report is an object with its index, its label as a string, its
/// events, and the list of the functions.
pub proof fn law_json_thread(listing: ListingModel, shares: Seq<Share>)
    ensures
        thread_text(listing, shares) == json_object(
            seq![
                json_field("index"@, decimal(listing.index as nat)),
                json_field("label"@, json_text(listing.label)),
                json_field("events"@, decimal(listing.events as nat)),
                json_field(
                    "functions"@,
                    seq!['['] + joined(function_texts(listing, shares), seq![',']) + seq![']'],
                ),
            ],
        ),
        function_texts(listing, shares).len() == listing.rows.len(),
        forall|i: int|
            0 <= i < listing.rows.len() ==> #[trigger] function_texts(listing, shares)[i]
                == function_text(listing.rows[i], shares[i].self_pct@, shares[i].total_pct@),
{
    reveal_strlit("index");
    reveal_strlit("label");
    reveal_strlit("events");
    reveal_strlit("functions");
    reveal_strlit("{\"index\":");
    reveal_strlit(",\"label\":");
    reveal_strlit(",\"events\":");
    reveal_strlit(",\"functions\":[");
    reveal_strlit("]}");
    reveal_strlit(",");
    let comma = seq![','];
    assert(","@ =~= comma);
    let list = joined(function_texts(listing, shares), comma);
    let a = json_field("index"@, decimal(listing.index as nat));
    let b = json_field("label"@, json_text(listing.label));
    let c = json_field("events"@, decimal(listing.events as nat));
    let d = json_field("functions"@, seq!['['] + list + seq![']']);
    lemma_five(a, b, c, d, d, comma);
    assert("{\"index\":"@ =~= seq!['{', '"'] + "index"@ + seq!['"', ':']);
    assert(",\"label\":"@ =~= seq![',', '"'] + "label"@ + seq!['"', ':']);
    assert(",\"events\":"@ =~= seq![',', '"'] + "events"@ + seq!['"', ':']);
    assert(",\"functions\":["@ =~= seq![',', '"'] + "functions"@ + seq!['"', ':', '[']);
    assert("]}"@ =~= seq![']', '}']);
    assert(thread_text(listing, shares) =~= seq!['{'] + (a + comma + b + comma + c + comma + d)
        + seq!['}']);
}

/// A JSON string stands in quotes.
pub proof fn law_json_text(s: Seq<char>)
    ensures
        json_text(s).len() >= 2,
        json_text(s)[0] == '"',
        json_text(s).last() == '"',
        unescaped(json_text(s).subrange(1, json_text(s).len() - 1)) == Some(s),
{
    law_json_reads_back(s);
    assert(json_text(s).subrange(1, json_text(s).len() - 1) =~= escapes(s));
}

/// The columns of a table: where their contents fit, the exclusive share ends at the
/// seventh character, the inclusive share at the fifteenth, the exclusive events at the
/// twenty-seventh, and the name starts after two more.
pub proof fn law_table_columns(
    self_pct: Seq<char>,
    total_pct: Seq<char>,
    self_events: u64,
    key: Seq<char>,
)
    requires
        self_pct.len() <= 5,
        total_pct.len() <= 6,
        decimal(self_events as nat).len() <= 10,
    ensures
        ({
            let line = table_text(self_pct, total_pct, self_events, key);
            let events = decimal(self_events as nat);
            &&& line.len() == 29 + key.len()
            &&& line.subrange(7 - self_pct.len(), 7) == self_pct
            &&& line.subrange(15 - total_pct.len(), 15) == total_pct
            &&& line.subrange(27 - events.len(), 27) == events
            &&& line.skip(29) == key
            &&& forall|i: int|
                0 <= i < 29 && !(7 - self_pct.len() <= i < 7) && !(15 - total_pct.len() <= i < 15)
                    && !(27 - events.len() <= i < 27) ==> #[trigger] line[i] == ' '
        }),
{
    reveal_strlit("  ");
    let events = decimal(self_events as nat);
    let line = table_text(self_pct, total_pct, self_events, key);
    assert(line.subrange(7 - self_pct.len(), 7) =~= self_pct);
    assert(line.subrange(15 - total_pct.len(), 15) =~= total_pct);
    assert(line.subrange(27 - events.len(), 27) =~= events);
    assert(line.skip(29) =~= key);
}

/// The JSON report has an entry for every thread that is listed, in order.
pub proof fn law_json_threads(listings: Seq<ThreadListing>, shares: Seq<Vec<Share>>)
    ensures
        thread_texts(listings, shares).len() == listings.len(),
        forall|i: int|
            0 <= i < listings.len() ==> #[trigger] thread_texts(listings, shares)[i] == thread_text(
                listings[i]@,
                shares[i]@,
            ),
{
}

/// A table starts with a title that names the thread by its index and its label and gives
/// its events, and with the heads of the columns.
pub proof fn law_table_head(listing: ListingModel, shares: Seq<Share>, min_pct: Seq<char>)
    ensures
        table_texts(listing, shares, min_pct).len() >= 2,
        table_texts(listing, shares, min_pct)[0] == "=== thread ["@ + decimal(
            listing.index as nat,
        ) + "] "@ + listing.label + " — "@ + decimal(listing.events as nat) + " events ==="@,
        table_texts(listing, shares, min_pct)[1] == "  self%  total%        self  function"@,
        listing.rows.len() == 0 ==> table_texts(listing, shares, min_pct).len() == 3
            && table_texts(listing, shares, min_pct)[2] == "  (no function above --min-pct "@
            + min_pct + "%)"@,
{
}

} // verus!
