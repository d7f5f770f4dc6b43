//! The profile validator: sanity checks and a summary.
//!
//! The command line is `validate <path> [--format perf-json|perf-script|gecko]`.

use crate::flame::call_tree::{call_tree, conserves, law_call_tree_conserves, level_sum, CallNode};
use crate::flame::layout::{deep_sum, law_deep_sum};
use crate::hotspots::{node_at, path_before};
use crate::parsers::Format;
use crate::profile::{
    busiest_first, event_total, law_weight_sum, lemma_totals_cover, opt_text, sample_total, stacks_within,
    weight_sum, Frame, Profile, SampleModel, Thread, ThreadModel,
};
use crate::text::{decimal, padded, push_decimal, push_padded, same_text, views};
use vstd::prelude::*;

verus! {

// ---------------------------------------------------------------------------
// Arguments
// ---------------------------------------------------------------------------

/// The format that a name on the command line stands for.
pub open spec fn format_named(value: Seq<char>) -> Option<Format> {
    if value == "perf-json"@ || value == "perf_json"@ {
        Some(Format::PerfJson)
    } else if value == "perf-script"@ || value == "perf_script"@ {
        Some(Format::PerfScript)
    } else if value == "gecko"@ {
        Some(Format::Gecko)
    } else {
        None
    }
}

/// The format that a name on the command line stands for.
pub fn parse_format(value: &str) -> (r: Option<Format>)
    ensures
        r == format_named(value@),
{
    if same_text(value, "perf-json") || same_text(value, "perf_json") {
        Some(Format::PerfJson)
    } else if same_text(value, "perf-script") || same_text(value, "perf_script") {
        Some(Format::PerfScript)
    } else if same_text(value, "gecko") {
        Some(Format::Gecko)
    } else {
        None
    }
}

/// What to validate.
pub struct Request {
    /// The profile's path.
    pub path: String,
    /// Its format, where it is given.
    pub format: Option<Format>,
}

/// The request that arguments make, given what stood before them, or what is wrong
/// with them.
pub open spec fn requested(
    args: Seq<Seq<char>>,
    path: Option<Seq<char>>,
    format: Option<Format>,
) -> Result<(Seq<char>, Option<Format>), Seq<char>>
    decreases args.len(),
{
    if args.len() == 0 {
        match path {
            Some(p) => Ok((p, format)),
            None => Err("usage: validate <path> [--format perf-json|perf-script|gecko]"@),
        }
    } else if args[0] == "--format"@ || args[0] == "-f"@ {
        if args.len() == 1 {
            Err("--format requires a value"@)
        } else {
            match format_named(args[1]) {
                Some(f) => requested(args.skip(2), path, Some(f)),
                None => Err("unknown format: "@ + args[1]),
            }
        }
    } else {
        match path {
            None => requested(args.skip(1), Some(args[0]), format),
            Some(_) => Err("unexpected argument: "@ + args[0]),
        }
    }
}

/// `prefix` and then `value`.
fn message(prefix: &str, value: &str) -> (r: String)
    ensures
        r@ == prefix@ + value@,
{
    let mut out = String::new();
    out.append(prefix);
    out.append(value);
    assert(out@ =~= prefix@ + value@);
    out
}

/// Reads the arguments that follow the program's name.
pub fn parse_args(args: &Vec<String>) -> (r: Result<Request, String>)
    ensures
        match r {
            Ok(request) => requested(views(args@), None, None) == Ok::<_, Seq<char>>(
                (request.path@, request.format),
            ),
            Err(text) => requested(views(args@), None, None) == Err::<
                (Seq<char>, Option<Format>),
                _,
            >(text@),
        },
{
    let ghost all = views(args@);
    let n = args.len();
    let mut path: Option<String> = None;
    let mut format: Option<Format> = None;
    let mut i: usize = 0;
    assert(all.skip(0) =~= all);
    while i < n
        invariant
            i <= n,
            n == args@.len(),
            all == views(args@),
            requested(all, None, None) == requested(all.skip(i as int), opt_text(path), format),
        decreases n - i,
    {
        let arg = args[i].as_str();
        let ghost rest = all.skip(i as int);
        assert(rest[0] == arg@);
        if same_text(arg, "--format") || same_text(arg, "-f") {
            if i + 1 >= n {
                return Err("--format requires a value".to_string());
            }
            let value = args[i + 1].as_str();
            assert(rest[1] == value@);
            match parse_format(value) {
                Some(f) => {
                    format = Some(f);
                },
                None => {
                    return Err(message("unknown format: ", value));
                },
            }
            assert(rest.skip(2) =~= all.skip(i + 2));
            i = i + 2;
        } else {
            if path.is_some() {
                return Err(message("unexpected argument: ", arg));
            }
            path = Some(arg.to_string());
            assert(rest.skip(1) =~= all.skip(i + 1));
            i = i + 1;
        }
    }
    match path {
        Some(path) => Ok(Request { path, format }),
        None => Err(
            "usage: validate <path> [--format perf-json|perf-script|gecko]".to_string(),
        ),
    }
}

// ---------------------------------------------------------------------------
// Checks
// ---------------------------------------------------------------------------

/// The sums that the conservation check makes fit their type.
pub open spec fn sums_fit(nodes: Seq<CallNode>) -> bool
    decreases nodes,
{
    forall|i: int|
        0 <= i < nodes.len() ==> {
            &&& (#[trigger] nodes[i]).self_samples + level_sum(nodes[i].children@) <= u64::MAX
            &&& sums_fit(nodes[i].children@)
        }
}

/// The first span, parents before children, whose exclusive events and whose
/// children's inclusive events do not add up to its inclusive events: the three
/// counts.
pub open spec fn violation(nodes: Seq<CallNode>) -> Option<(nat, nat, nat)>
    decreases nodes,
{
    if nodes.len() == 0 {
        None
    } else {
        let node = nodes[0];
        if node.self_samples + level_sum(node.children@) != node.total_samples {
            Some(
                (
                    node.self_samples as nat,
                    level_sum(node.children@),
                    node.total_samples as nat,
                ),
            )
        } else {
            match violation(nodes[0].children@) {
                Some(v) => Some(v),
                None => violation(nodes.subrange(1, nodes.len() as int)),
            }
        }
    }
}

/// What is said of such a span.
pub open spec fn violation_text(label: Seq<char>, counts: (nat, nat, nat)) -> Seq<char> {
    "thread "@ + label + ": span sample counts do not conserve ("@ + decimal(counts.0)
        + " self + "@ + decimal(counts.1) + " children != "@ + decimal(counts.2) + " total)"@
}

/// There is such a span exactly where the tree does not conserve events.
pub proof fn law_violation(nodes: Seq<CallNode>)
    ensures
        violation(nodes) is None <==> conserves(nodes),
    decreases nodes,
{
    if nodes.len() > 0 {
        let rest = nodes.subrange(1, nodes.len() as int);
        law_violation(nodes[0].children@);
        law_violation(rest);
        if conserves(nodes) {
            assert forall|i: int| 0 <= i < rest.len() implies {
                &&& (#[trigger] rest[i]).self_samples + level_sum(rest[i].children@)
                    == rest[i].total_samples
                &&& conserves(rest[i].children@)
            } by {
                assert(rest[i] == nodes[i + 1]);
            }
            assert(conserves(nodes[0].children@));
        }
        if violation(nodes) is None {
            assert forall|i: int| 0 <= i < nodes.len() implies {
                &&& (#[trigger] nodes[i]).self_samples + level_sum(nodes[i].children@)
                    == nodes[i].total_samples
                &&& conserves(nodes[i].children@)
            } by {
                if i > 0 {
                    assert(nodes[i] == rest[i - 1]);
                }
            }
        }
    }
}

proof fn lemma_level_sum_grows(nodes: Seq<CallNode>, k: int)
    requires
        0 <= k <= nodes.len(),
    ensures
        level_sum(nodes.take(k)) <= level_sum(nodes),
    decreases nodes.len(),
{
    if k < nodes.len() {
        lemma_level_sum_grows(nodes.drop_last(), k);
        assert(nodes.drop_last().take(k) =~= nodes.take(k));
    } else {
        assert(nodes.take(k) =~= nodes);
    }
}

/// Adds up the inclusive events of a list of nodes.
pub fn sum_totals(nodes: &Vec<CallNode>) -> (r: u64)
    requires
        level_sum(nodes@) <= u64::MAX,
    ensures
        r == level_sum(nodes@),
{
    let mut total: u64 = 0;
    let n = nodes.len();
    for i in 0..n
        invariant
            n == nodes@.len(),
            level_sum(nodes@) <= u64::MAX,
            total == level_sum(nodes@.take(i as int)),
    {
        proof {
            assert(nodes@.take(i + 1).drop_last() =~= nodes@.take(i as int));
            lemma_level_sum_grows(nodes@, i + 1);
        }
        total = total + nodes[i].total_samples;
    }
    assert(nodes@.take(n as int) =~= nodes@);
    total
}

/// Checks that, for every span, the exclusive events and the children's inclusive
/// events add up to the span's own.
pub fn check_conservation(nodes: &Vec<CallNode>, label: &str) -> (r: Result<(), String>)
    requires
        sums_fit(nodes@),
    ensures
        match r {
            Ok(()) => violation(nodes@) is None,
            Err(text) => violation(nodes@) is Some && text@ == violation_text(
                label@,
                violation(nodes@).unwrap(),
            ),
        },
    decreases nodes,
{
    let n = nodes.len();
    assert(nodes@.subrange(0, n as int) =~= nodes@);
    for i in 0..n
        invariant
            n == nodes@.len(),
            sums_fit(nodes@),
            violation(nodes@) == violation(nodes@.subrange(i as int, n as int)),
    {
        let node = &nodes[i];
        let ghost rest = nodes@.subrange(i as int, n as int);
        proof {
            assert(rest[0] == nodes@[i as int]);
            assert(rest.subrange(1, rest.len() as int) =~= nodes@.subrange(i + 1, n as int));
        }
        let children = sum_totals(&node.children);
        if node.self_samples + children != node.total_samples {
            let mut out = String::new();
            out.append("thread ");
            out.append(label);
            out.append(": span sample counts do not conserve (");
            push_decimal(&mut out, node.self_samples);
            out.append(" self + ");
            push_decimal(&mut out, children);
            out.append(" children != ");
            push_decimal(&mut out, node.total_samples);
            out.append(" total)");
            assert(out@ =~= violation_text(label@, violation(nodes@).unwrap()));
            return Err(out);
        }
        assert(decreases_to!(nodes => nodes@));
        assert(decreases_to!(nodes@ => nodes@[i as int]));
        assert(decreases_to!(nodes@[i as int] => nodes@[i as int].children));
        match check_conservation(&node.children, label) {
            Ok(()) => {},
            Err(text) => {
                return Err(text);
            },
        }
    }
    Ok(())
}

/// Every stack of the thread is empty.
pub open spec fn stackless<T>(samples: Seq<SampleModel<T>>) -> bool {
    forall|i: int| 0 <= i < samples.len() ==> (#[trigger] samples[i]).stack.len() == 0
}

/// The roots of the call tree cover all events of the thread.
pub open spec fn covered<T>(thread: ThreadModel<T>) -> bool {
    deep_sum(thread.samples, 1) == weight_sum(thread.samples)
}

/// What is said of a thread whose roots do not cover all its events: some sample has
/// no stack.
pub open spec fn uncovered_text<T>(thread: ThreadModel<T>) -> Seq<char> {
    "thread "@ + thread.label() + ": roots cover "@ + decimal(
        deep_sum(thread.samples, 1) as nat,
    ) + " events, expected "@ + decimal(weight_sum(thread.samples))
}

/// The first thread from `i` on whose roots do not cover all its events.
pub open spec fn first_uncovered<T>(threads: Seq<ThreadModel<T>>, i: int) -> Option<int>
    decreases threads.len() - i,
{
    if i < 0 || i >= threads.len() {
        None
    } else if !covered(threads[i]) {
        Some(i)
    } else {
        first_uncovered(threads, i + 1)
    }
}

/// What is wrong with a profile, if anything.
pub open spec fn checked<T>(threads: Seq<ThreadModel<T>>, times_finite: bool) -> Result<
    (),
    Seq<char>,
> {
    if sample_total(threads) == 0 {
        Err("profile contains no samples"@)
    } else if forall|t: int| 0 <= t < threads.len() ==> stackless((#[trigger] threads[t]).samples) {
        Err("every sample has an empty stack"@)
    } else if !times_finite {
        Err("found a non-finite timestamp"@)
    } else {
        match first_uncovered(threads, 0) {
            Some(t) => Err(uncovered_text(threads[t])),
            None => Ok(()),
        }
    }
}

/// Whether every stack of the thread is empty.
fn has_no_stack<T>(thread: &Thread<T>) -> (r: bool)
    ensures
        r == stackless(thread@.samples),
{
    let n = thread.samples.len();
    for i in 0..n
        invariant
            n == thread@.samples.len(),
            forall|k: int| 0 <= k < i ==> (#[trigger] thread@.samples[k]).stack.len() == 0,
    {
        assert(thread@.samples[i as int] == thread.samples@[i as int]@);
        if thread.samples[i].stack.len() > 0 {
            return false;
        }
    }
    true
}

/// Checks what every well-formed profile satisfies: it has samples, some of them
/// with a stack, finite times (`times_finite` says whether they are), and call trees
/// that account for exactly the samples.
pub fn check<T>(profile: &Profile<T>, times_finite: bool) -> (r: Result<(), String>)
    requires
        forall|t: int|
            0 <= t < profile@.len() ==> weight_sum((#[trigger] profile@[t]).samples) <= u64::MAX,
    ensures
        match r {
            Ok(()) => checked(profile@, times_finite) is Ok,
            Err(text) => checked(profile@, times_finite) == Err::<(), _>(text@),
        },
{
    let ghost all = profile@;
    if profile.is_empty() {
        return Err("profile contains no samples".to_string());
    }
    let n = profile.threads.len();
    let mut empty = true;
    for i in 0..n
        invariant
            n == profile@.len(),
            all == profile@,
            empty == forall|t: int| 0 <= t < i ==> stackless((#[trigger] all[t]).samples),
    {
        assert(all[i as int] == profile.threads@[i as int]@);
        if !has_no_stack(&profile.threads[i]) {
            empty = false;
        }
    }
    if empty {
        return Err("every sample has an empty stack".to_string());
    }
    if !times_finite {
        return Err("found a non-finite timestamp".to_string());
    }
    for i in 0..n
        invariant
            n == profile@.len(),
            all == profile@,
            forall|t: int| 0 <= t < all.len() ==> weight_sum((#[trigger] all[t]).samples)
                <= u64::MAX,
            checked(all, times_finite) == match first_uncovered(all, i as int) {
                Some(t) => Err::<(), _>(uncovered_text(all[t])),
                None => Ok(()),
            },
    {
        let thread = &profile.threads[i];
        assert(all[i as int] == thread@);
        let tree = call_tree(thread);
        let label = thread.label();
        proof {
            law_call_tree_conserves(tree, thread@.samples);
            law_violation(tree.roots@);
            lemma_conserving_fits(tree.roots@);
        }
        match check_conservation(&tree.roots, label.as_str()) {
            Ok(()) => {},
            Err(text) => {
                return Err(text);
            },
        }
        let roots = sum_totals(&tree.roots);
        if roots != tree.total_samples {
            let mut out = String::new();
            out.append("thread ");
            out.append(label.as_str());
            out.append(": roots cover ");
            push_decimal(&mut out, roots);
            out.append(" events, expected ");
            push_decimal(&mut out, tree.total_samples);
            assert(out@ =~= uncovered_text(thread@));
            return Err(out);
        }
    }
    Ok(())
}

proof fn lemma_conserving_fits(nodes: Seq<CallNode>)
    requires
        conserves(nodes),
    ensures
        sums_fit(nodes),
    decreases nodes,
{
    assert forall|i: int| 0 <= i < nodes.len() implies {
        &&& (#[trigger] nodes[i]).self_samples + level_sum(nodes[i].children@) <= u64::MAX
        &&& sums_fit(nodes[i].children@)
    } by {
        lemma_conserving_fits(nodes[i].children@);
    }
}

/// A thread whose samples all have a stack passes.
pub proof fn law_stacks_are_covered<T>(thread: ThreadModel<T>)
    requires
        forall|i: int| 0 <= i < thread.samples.len() ==> (#[trigger] thread.samples[i]).stack.len()
            > 0,
    ensures
        covered(thread),
{
    lemma_covered(thread.samples);
}

proof fn lemma_covered<T>(samples: Seq<SampleModel<T>>)
    requires
        forall|i: int| 0 <= i < samples.len() ==> (#[trigger] samples[i]).stack.len() > 0,
    ensures
        deep_sum(samples, 1) == weight_sum(samples),
    decreases samples.len(),
{
    if samples.len() > 0 {
        let rest = samples.drop_last();
        assert forall|i: int| 0 <= i < rest.len() implies (#[trigger] rest[i]).stack.len() > 0 by {
            assert(rest[i] == samples[i]);
        }
        lemma_covered(rest);
        assert(samples[samples.len() - 1].stack.len() > 0);
    }
}

// ---------------------------------------------------------------------------
// Summary
// ---------------------------------------------------------------------------

/// How a frame is shown: by its symbol, or by its instruction pointer.
pub fn frame_label(frame: &Frame) -> (r: String)
    ensures
        r@ == frame@.key(),
{
    frame.key().to_string()
}

/// The depth of the deepest stack of all threads.
pub open spec fn deepest_of<T>(threads: Seq<ThreadModel<T>>) -> nat
    decreases threads.len(),
{
    if threads.len() == 0 {
        0
    } else if threads.last().max_depth() > deepest_of(threads.drop_last()) {
        threads.last().max_depth()
    } else {
        deepest_of(threads.drop_last())
    }
}

/// The first sample from `i` on that has a stack, or the number of samples.
pub open spec fn first_stack<T>(samples: Seq<SampleModel<T>>, i: int) -> int
    decreases samples.len() - i,
{
    if i < 0 || i >= samples.len() || samples[i].stack.len() > 0 {
        i
    } else {
        first_stack(samples, i + 1)
    }
}

/// The line of a thread.
pub open spec fn thread_line<T>(thread: ThreadModel<T>) -> Seq<char> {
    "    "@ + padded(decimal(thread.samples.len()), 6) + " samples  "@ + thread.label()
}

/// The lines of the first `n` threads of an order.
pub open spec fn thread_lines<T>(threads: Seq<ThreadModel<T>>, order: Seq<usize>, n: int) -> Seq<
    Seq<char>,
>
    decreases n,
{
    if n <= 0 {
        Seq::empty()
    } else {
        thread_lines(threads, order, n - 1).push(thread_line(threads[order[n - 1] as int]))
    }
}

/// The lines that show a sample of the busiest thread, where it has one with a
/// stack: its leaf and its root.
pub open spec fn example_lines<T>(thread: ThreadModel<T>) -> Seq<Seq<char>> {
    let i = first_stack(thread.samples, 0);
    if i < thread.samples.len() {
        let stack = thread.samples[i].stack;
        seq!["  example:    "@ + thread.key(stack[0]) + " ... "@ + thread.key(stack.last())]
    } else {
        Seq::empty()
    }
}

/// The lines that sum up a profile. At most ten threads are listed.
pub open spec fn summary_of<T>(
    path: Seq<char>,
    threads: Seq<ThreadModel<T>>,
    order: Seq<usize>,
) -> Seq<Seq<char>> {
    let shown = if order.len() < 10 {
        order.len() as int
    } else {
        10
    };
    seq![
        "OK   "@ + path,
        "  samples:    "@ + decimal(sample_total(threads)),
        "  events:     "@ + decimal(event_total(threads)),
        "  threads:    "@ + decimal(threads.len()),
        "  max depth:  "@ + decimal(deepest_of(threads)),
        "  threads by sample count:"@,
    ] + thread_lines(threads, order, shown) + (if order.len() > 10 {
        seq!["    ... and "@ + decimal((order.len() - 10) as nat) + " more"@]
    } else {
        Seq::empty()
    }) + (if order.len() > 0 {
        example_lines(threads[order[0] as int])
    } else {
        Seq::empty()
    })
}

/// `prefix` and then a number.
fn counted(prefix: &str, n: u64) -> (r: String)
    ensures
        r@ == prefix@ + decimal(n as nat),
{
    let mut out = String::new();
    out.append(prefix);
    push_decimal(&mut out, n);
    assert(out@ =~= prefix@ + decimal(n as nat));
    out
}

/// The depth of the deepest stack of all threads.
fn max_depth_of<T>(profile: &Profile<T>) -> (r: usize)
    ensures
        r == deepest_of(profile@),
{
    let n = profile.threads.len();
    let mut deepest: usize = 0;
    for i in 0..n
        invariant
            n == profile@.len(),
            deepest == deepest_of(profile@.take(i as int)),
    {
        let depth = profile.threads[i].max_depth();
        proof {
            assert(profile@.take(i + 1).drop_last() =~= profile@.take(i as int));
            assert(profile@.take(i + 1).last() == profile.threads@[i as int]@);
        }
        if depth > deepest {
            deepest = depth;
        }
    }
    assert(profile@.take(n as int) =~= profile@);
    deepest
}

/// The first sample that has a stack, or the number of samples.
fn find_stack<T>(thread: &Thread<T>) -> (r: usize)
    ensures
        r == first_stack(thread@.samples, 0),
        r <= thread@.samples.len(),
        r < thread@.samples.len() ==> thread@.samples[r as int].stack.len() > 0,
{
    let n = thread.samples.len();
    for i in 0..n
        invariant
            n == thread@.samples.len(),
            first_stack(thread@.samples, 0) == first_stack(thread@.samples, i as int),
    {
        assert(thread@.samples[i as int] == thread.samples@[i as int]@);
        if thread.samples[i].stack.len() > 0 {
            return i;
        }
    }
    n
}

/// Sums a profile up in a few lines: its size, its busiest threads, and a sample of
/// the busiest.
pub fn summary<T>(path: &str, profile: &Profile<T>) -> (r: Vec<String>)
    requires
        sample_total(profile@) <= usize::MAX,
        event_total(profile@) <= u64::MAX,
        forall|t: int|
            0 <= t < profile@.len() ==> stacks_within(
                (#[trigger] profile@[t]).samples,
                profile@[t].frames.len() as int,
            ),
    ensures
        exists|order: Seq<usize>| #[trigger]
            busiest_first(order, profile@) && views(r@) == summary_of(path@, profile@, order),
{
    let order = profile.threads_by_samples();
    let ghost all = profile@;
    let count = order.len();
    let shown: usize = if count < 10 {
        count
    } else {
        10
    };
    let mut lines: Vec<String> = Vec::new();
    lines.push(message("OK   ", path));
    lines.push(counted("  samples:    ", profile.total_samples() as u64));
    lines.push(counted("  events:     ", profile.event_count()));
    lines.push(counted("  threads:    ", profile.threads.len() as u64));
    lines.push(counted("  max depth:  ", max_depth_of(profile) as u64));
    lines.push("  threads by sample count:".to_string());
    let ghost head = views(lines@);
    assert(head =~= summary_of(path@, all, order@).take(6));
    assert(head =~= head + thread_lines(all, order@, 0));
    for i in 0..shown
        invariant
            shown <= count,
            count == order@.len(),
            all == profile@,
            busiest_first(order@, all),
            views(lines@) == head + thread_lines(all, order@, i as int),
    {
        let thread = &profile.threads[order[i]];
        assert(all[order@[i as int] as int] == thread@);
        let mut line = String::new();
        line.append("    ");
        let mut number = String::new();
        push_decimal(&mut number, thread.samples.len() as u64);
        assert(number@ =~= decimal(thread@.samples.len()));
        push_padded(&mut line, number.as_str(), 6);
        line.append(" samples  ");
        let label = thread.label();
        line.append(label.as_str());
        assert(line@ =~= thread_line(thread@));
        let ghost before = lines@;
        lines.push(line);
        assert(views(lines@) =~= views(before).push(thread_line(thread@)));
        assert(views(lines@) =~= head + thread_lines(all, order@, i + 1));
    }
    let ghost listed = views(lines@);
    if count > 10 {
        let mut line = counted("    ... and ", (count - 10) as u64);
        line.append(" more");
        assert(line@ =~= "    ... and "@ + decimal((count - 10) as nat) + " more"@);
        lines.push(line);
    }
    let ghost told = views(lines@);
    assert(told =~= listed + (if count > 10 {
        seq!["    ... and "@ + decimal((count - 10) as nat) + " more"@]
    } else {
        Seq::empty()
    }));
    if count > 0 {
        let thread = &profile.threads[order[0]];
        assert(all[order@[0] as int] == thread@);
        let i = find_stack(thread);
        if i < thread.samples.len() {
            let stack = &thread.samples[i].stack;
            proof {
                assert(thread@.samples[i as int] == thread.samples@[i as int]@);
                assert(stacks_within(thread@.samples, thread@.frames.len() as int));
                assert((thread@.samples[i as int].stack[0] as int) < thread@.frames.len());
                let n = stack@.len() - 1;
                assert((thread@.samples[i as int].stack[n] as int) < thread@.frames.len());
            }
            let leaf = frame_label(thread.frame(stack[0]));
            let root = frame_label(thread.frame(stack[stack.len() - 1]));
            let mut line = message("  example:    ", leaf.as_str());
            line.append(" ... ");
            line.append(root.as_str());
            assert(line@ =~= example_lines(thread@)[0]);
            lines.push(line);
        }
        assert(views(lines@) =~= told + example_lines(thread@));
    }
    proof {
        let whole = summary_of(path@, all, order@);
        assert(head + thread_lines(all, order@, shown as int) == listed);
        assert(views(lines@) =~= whole);
    }
    lines
}

/// Validates a profile: its summary, or what is wrong with it.
pub fn validate<T>(path: &str, profile: &Profile<T>, times_finite: bool) -> (r: Result<
    Vec<String>,
    String,
>)
    requires
        sample_total(profile@) <= usize::MAX,
        event_total(profile@) <= u64::MAX,
        forall|t: int|
            0 <= t < profile@.len() ==> stacks_within(
                (#[trigger] profile@[t]).samples,
                profile@[t].frames.len() as int,
            ),
    ensures
        match r {
            Ok(lines) => checked(profile@, times_finite) is Ok && exists|order: Seq<usize>|
             #[trigger]
                busiest_first(order, profile@) && views(lines@) == summary_of(
                    path@,
                    profile@,
                    order,
                ),
            Err(text) => checked(profile@, times_finite) == Err::<(), _>(text@),
        },
{
    proof {
        assert forall|t: int| 0 <= t < profile@.len() implies weight_sum(
            (#[trigger] profile@[t]).samples,
        ) <= u64::MAX by {
            lemma_totals_cover(profile@, t);
        }
    }
    match check(profile, times_finite) {
        Ok(()) => Ok(summary(path, profile)),
        Err(text) => Err(text),
    }
}

// ---------------------------------------------------------------------------
// What holds of the checks
// ---------------------------------------------------------------------------

proof fn lemma_names()
    ensures
        "perf-json"@ != "gecko"@,
        "perf_json"@ != "gecko"@,
        "perf-script"@ != "gecko"@,
        "perf_script"@ != "gecko"@,
        "perf-json"@ != "perf-script"@,
        "perf-json"@ != "perf_script"@,
        "perf_json"@ != "perf-script"@,
        "perf_json"@ != "perf_script"@,
{
    reveal_strlit("perf-json");
    reveal_strlit("perf_json");
    reveal_strlit("perf-script");
    reveal_strlit("perf_script");
    reveal_strlit("gecko");
    assert("perf-json"@.len() == 9 && "perf_json"@.len() == 9);
    assert("perf-script"@.len() == 11 && "perf_script"@.len() == 11);
    assert("gecko"@.len() == 5);
}

/// Each format goes by its name, written with a hyphen or an underscore; there is no other
/// name.
pub proof fn law_format_names(value: Seq<char>)
    ensures
        format_named("perf-json"@) == Some(Format::PerfJson),
        format_named("perf_json"@) == Some(Format::PerfJson),
        format_named("perf-script"@) == Some(Format::PerfScript),
        format_named("perf_script"@) == Some(Format::PerfScript),
        format_named("gecko"@) == Some(Format::Gecko),
        value != "perf-json"@ && value != "perf_json"@ && value != "perf-script"@ && value
            != "perf_script"@ && value != "gecko"@ ==> format_named(value) is None,
{
    lemma_names();
}

/// A format that is asked for is that of the request, wherever it stands, and the one
/// argument beside it is the path. An unknown format, a format without a name, a second
/// path and no path at all are refused.
pub proof fn law_requested(
    arg: Seq<char>,
    value: Seq<char>,
    rest: Seq<Seq<char>>,
    path: Option<Seq<char>>,
    format: Option<Format>,
)
    ensures
        (arg == "--format"@ || arg == "-f"@) && format_named(value) is Some ==> requested(
            seq![arg, value] + rest,
            path,
            format,
        ) == requested(rest, path, format_named(value)),
        (arg == "--format"@ || arg == "-f"@) && format_named(value) is None ==> requested(
            seq![arg, value] + rest,
            path,
            format,
        ) == Err::<(Seq<char>, Option<Format>), _>("unknown format: "@ + value),
        arg == "--format"@ || arg == "-f"@ ==> requested(seq![arg], path, format) == Err::<
            (Seq<char>, Option<Format>),
            _,
        >("--format requires a value"@),
        arg != "--format"@ && arg != "-f"@ && path is None ==> requested(
            seq![arg] + rest,
            path,
            format,
        ) == requested(rest, Some(arg), format),
        arg != "--format"@ && arg != "-f"@ && path is Some ==> requested(
            seq![arg] + rest,
            path,
            format,
        ) == Err::<(Seq<char>, Option<Format>), _>("unexpected argument: "@ + arg),
        path is Some ==> requested(Seq::empty(), path, format) == Ok::<_, Seq<char>>(
            (path->0, format),
        ),
        path is None ==> requested(Seq::empty(), path, format) is Err,
{
    assert((seq![arg, value] + rest).skip(2) =~= rest);
    assert((seq![arg] + rest).skip(1) =~= rest);
}

/// Positions that lead to a node, the first among `nodes`, each other among the children
/// of the node before.
pub open spec fn is_place(nodes: Seq<CallNode>, at: Seq<int>) -> bool
    decreases at.len(),
{
    &&& at.len() > 0
    &&& 0 <= at[0] < nodes.len()
    &&& at.len() > 1 ==> is_place(nodes[at[0]].children@, at.skip(1))
}

/// The inclusive events of nodes, added up.
pub open spec fn added(nodes: Seq<CallNode>) -> int {
    nodes.fold_left(0int, |sum: int, node: CallNode| sum + node.total_samples)
}

/// The sum of the inclusive events of nodes is what they add up to.
pub proof fn law_sum_totals(nodes: Seq<CallNode>)
    ensures
        level_sum(nodes) == added(nodes),
    decreases nodes.len(),
{
    if nodes.len() > 0 {
        law_sum_totals(nodes.drop_last());
    }
}

/// The three counts that are reported are those of a node of the tree, and do not add up.
pub proof fn law_violation_is_real(nodes: Seq<CallNode>) -> (at: Seq<int>)
    requires
        violation(nodes) is Some,
    ensures
        is_place(nodes, at),
        ({
            let (own, below, total) = violation(nodes)->0;
            let node = node_at(nodes, at);
            &&& own == node.self_samples
            &&& below == added(node.children@)
            &&& total == node.total_samples
            &&& own + below != total
        }),
    decreases nodes,
{
    let node = nodes[0];
    law_sum_totals(node.children@);
    if node.self_samples + level_sum(node.children@) != node.total_samples {
        let at = seq![0int];
        at
    } else if violation(nodes[0].children@) is Some {
        let rest = law_violation_is_real(nodes[0].children@);
        let at = seq![0int] + rest;
        assert(at.skip(1) =~= rest);
        at
    } else {
        let others = nodes.subrange(1, nodes.len() as int);
        let found = law_violation_is_real(others);
        let at = seq![found[0] + 1] + found.skip(1);
        assert(at.skip(1) =~= found.skip(1));
        assert(others[found[0]] == nodes[at[0]]);
        at
    }
}

/// Where nothing is reported, the counts of every node add up.
pub proof fn law_no_violation(nodes: Seq<CallNode>, at: Seq<int>)
    requires
        violation(nodes) is None,
        is_place(nodes, at),
    ensures
        node_at(nodes, at).self_samples + added(node_at(nodes, at).children@) == node_at(
            nodes,
            at,
        ).total_samples,
    decreases at.len(),
{
    law_violation(nodes);
    let node = nodes[at[0]];
    assert(conserves(nodes));
    assert(node.self_samples + level_sum(node.children@) == node.total_samples);
    assert(conserves(node.children@));
    law_sum_totals(node.children@);
    if at.len() > 1 {
        law_violation(node.children@);
        law_no_violation(node.children@, at.skip(1));
    }
}

proof fn lemma_lost_events<T>(samples: Seq<SampleModel<T>>)
    ensures
        deep_sum(samples, 1) <= weight_sum(samples),
        deep_sum(samples, 1) == weight_sum(samples) <==> forall|k: int|
            0 <= k < samples.len() && (#[trigger] samples[k]).stack.len() == 0 ==> samples[k].weight
                == 0,
    decreases samples.len(),
{
    if samples.len() > 0 {
        let rest = samples.drop_last();
        lemma_lost_events(rest);
        let n = samples.len() - 1;
        if deep_sum(samples, 1) == weight_sum(samples) {
            assert forall|k: int|
                0 <= k < samples.len() && (#[trigger] samples[k]).stack.len() == 0 implies samples[
            k].weight == 0 by {
                if k < n {
                    assert(rest[k] == samples[k]);
                }
            }
        }
        if forall|k: int|
            0 <= k < samples.len() && (#[trigger] samples[k]).stack.len() == 0 ==> samples[k].weight
                == 0 {
            assert forall|k: int| 0 <= k < rest.len() && (#[trigger] rest[k]).stack.len()
                == 0 implies rest[k].weight == 0 by {
                assert(rest[k] == samples[k]);
            }
            assert(samples[n].stack.len() == 0 ==> samples[n].weight == 0);
        }
    }
}

proof fn lemma_first_uncovered<T>(threads: Seq<ThreadModel<T>>, i: int)
    requires
        0 <= i,
    ensures
        match first_uncovered(threads, i) {
            Some(t) => i <= t < threads.len() && !covered(threads[t]) && forall|k: int|
                i <= k < t ==> covered(#[trigger] threads[k]),
            None => forall|k: int| i <= k < threads.len() ==> covered(#[trigger] threads[k]),
        },
    decreases threads.len() - i,
{
    if i < threads.len() && covered(threads[i]) {
        lemma_first_uncovered(threads, i + 1);
    }
}

proof fn lemma_sample_total<T>(threads: Seq<ThreadModel<T>>)
    ensures
        sample_total(threads) == 0 <==> forall|t: int|
            0 <= t < threads.len() ==> (#[trigger] threads[t]).samples.len() == 0,
    decreases threads.len(),
{
    if threads.len() > 0 {
        let rest = threads.drop_last();
        lemma_sample_total(rest);
        if sample_total(threads) == 0 {
            assert forall|t: int| 0 <= t < threads.len() implies (
            #[trigger] threads[t]).samples.len() == 0 by {
                if t < rest.len() {
                    assert(rest[t] == threads[t]);
                }
            }
        }
        if forall|t: int| 0 <= t < threads.len() ==> (#[trigger] threads[t]).samples.len() == 0 {
            assert forall|t: int| 0 <= t < rest.len() implies (
            #[trigger] rest[t]).samples.len() == 0 by {
                assert(rest[t] == threads[t]);
            }
            assert(threads[threads.len() - 1].samples.len() == 0);
        }
    }
}

/// A profile passes if and only if some sample of it has a stack, all times are finite, and
/// no event is that of a sample without a stack. Else the first of these that fails is
/// reported, after the lack of any sample.
pub proof fn law_checked<T>(profile: Profile<T>, times_finite: bool)
    ensures
        ({
            let threads = profile.threads@;
            let empty = forall|t: int|
                0 <= t < threads.len() ==> (#[trigger] threads[t]).samples@.len() == 0;
            let bare = forall|t: int, k: int|
                0 <= t < threads.len() && 0 <= k < threads[t].samples@.len() ==> (
                #[trigger] threads[t].samples@[k]).stack@.len() == 0;
            let lost = exists|t: int, k: int|
                0 <= t < threads.len() && 0 <= k < threads[t].samples@.len() && (
                #[trigger] threads[t].samples@[k]).stack@.len() == 0
                    && threads[t].samples@[k].weight > 0;
            let r = checked(profile@, times_finite);
            &&& r is Ok <==> !empty && !bare && times_finite && !lost
            &&& empty ==> r == Err::<(), _>("profile contains no samples"@)
            &&& !empty && bare ==> r == Err::<(), _>("every sample has an empty stack"@)
            &&& !empty && !bare && !times_finite ==> r == Err::<(), _>(
                "found a non-finite timestamp"@,
            )
        }),
{
    let threads = profile.threads@;
    let models = profile@;
    lemma_sample_total(models);
    lemma_first_uncovered(models, 0);
    assert forall|t: int| 0 <= t < threads.len() implies #[trigger] models[t] == threads[t]@ by {}
    let empty = forall|t: int|
        0 <= t < threads.len() ==> (#[trigger] threads[t]).samples@.len() == 0;
    let bare = forall|t: int, k: int|
        0 <= t < threads.len() && 0 <= k < threads[t].samples@.len() ==> (
        #[trigger] threads[t].samples@[k]).stack@.len() == 0;
    let lost = exists|t: int, k: int|
        0 <= t < threads.len() && 0 <= k < threads[t].samples@.len() && (
        #[trigger] threads[t].samples@[k]).stack@.len() == 0 && threads[t].samples@[k].weight > 0;
    assert(empty <==> sample_total(models) == 0) by {
        if empty {
            assert forall|t: int| 0 <= t < models.len() implies (
            #[trigger] models[t]).samples.len() == 0 by {
                assert(threads[t].samples@.len() == 0);
            }
        }
        if sample_total(models) == 0 {
            assert forall|t: int| 0 <= t < threads.len() implies (
            #[trigger] threads[t]).samples@.len() == 0 by {
                assert(models[t].samples.len() == 0);
            }
        }
    }
    let all_bare = forall|t: int|
        0 <= t < models.len() ==> stackless((#[trigger] models[t]).samples);
    assert(bare <==> all_bare) by {
        if bare {
            assert forall|t: int| 0 <= t < models.len() implies stackless(
                (#[trigger] models[t]).samples,
            ) by {
                assert forall|k: int| 0 <= k < models[t].samples.len() implies (
                #[trigger] models[t].samples[k]).stack.len() == 0 by {
                    assert(threads[t].samples@[k].stack@.len() == 0);
                }
            }
        }
        if all_bare {
            assert forall|t: int, k: int|
                0 <= t < threads.len() && 0 <= k < threads[t].samples@.len() implies (
            #[trigger] threads[t].samples@[k]).stack@.len() == 0 by {
                assert(stackless(models[t].samples));
                assert(models[t].samples[k].stack.len() == 0);
            }
        }
    }
    assert(lost <==> first_uncovered(models, 0) is Some) by {
        if lost {
            let (t, k) = choose|t: int, k: int|
                0 <= t < threads.len() && 0 <= k < threads[t].samples@.len() && (
                #[trigger] threads[t].samples@[k]).stack@.len() == 0
                    && threads[t].samples@[k].weight > 0;
            lemma_lost_events(models[t].samples);
            assert(models[t].samples[k].stack.len() == 0);
            assert(!covered(models[t]));
        }
        if first_uncovered(models, 0) is Some {
            let t = first_uncovered(models, 0)->0;
            lemma_lost_events(models[t].samples);
            let k = choose|k: int|
                0 <= k < models[t].samples.len() && (#[trigger] models[t].samples[k]).stack.len()
                    == 0 && models[t].samples[k].weight != 0;
            assert(models[t].samples[k] == threads[t].samples@[k]@);
            assert(threads[t].samples@[k].stack@.len() == 0 && threads[t].samples@[k].weight > 0);
        }
    }
}

// ---------------------------------------------------------------------------
// What holds of the summary
// ---------------------------------------------------------------------------

proof fn lemma_thread_lines<T>(threads: Seq<ThreadModel<T>>, order: Seq<usize>, n: int)
    requires
        0 <= n,
    ensures
        thread_lines(threads, order, n).len() == n,
        forall|k: int|
            0 <= k < n ==> #[trigger] thread_lines(threads, order, n)[k] == thread_line(
                threads[order[k] as int],
            ),
    decreases n,
{
    if n > 0 {
        lemma_thread_lines(threads, order, n - 1);
    }
}

/// The summary names the path, counts samples, events, threads and rows, and then has a
/// line for each of the first ten threads of the order, with its samples and its label; a
/// line says how many more there are.
pub proof fn law_summary<T>(path: Seq<char>, profile: Profile<T>, order: Seq<usize>, k: int)
    requires
        forall|i: int| 0 <= i < order.len() ==> (#[trigger] order[i] as int) < profile.threads@.len(),
    ensures
        ({
            let lines = summary_of(path, profile@, order);
            let shown = if order.len() < 10 {
                order.len() as int
            } else {
                10
            };
            &&& lines.len() >= 6 + shown
            &&& lines[0] == "OK   "@ + path
            &&& lines[1] == "  samples:    "@ + decimal(sample_total(profile@))
            &&& lines[2] == "  events:     "@ + decimal(event_total(profile@))
            &&& lines[3] == "  threads:    "@ + decimal(profile.threads@.len())
            &&& lines[4] == "  max depth:  "@ + decimal(deepest_of(profile@))
            &&& lines[5] == "  threads by sample count:"@
            &&& 0 <= k < shown ==> lines[6 + k] == "    "@ + padded(
                decimal(profile.threads@[order[k] as int].samples@.len()),
                6,
            ) + " samples  "@ + profile.threads@[order[k] as int]@.label()
            &&& order.len() > 10 ==> lines.len() > 16 && lines[16] == "    ... and "@ + decimal(
                (order.len() - 10) as nat,
            ) + " more"@
        }),
{
    let shown = if order.len() < 10 {
        order.len() as int
    } else {
        10
    };
    lemma_thread_lines(profile@, order, shown);
    if 0 <= k < shown {
        assert(profile@[order[k] as int] == profile.threads@[order[k] as int]@);
        assert(thread_lines(profile@, order, shown)[k] == thread_line(profile@[order[k] as int]));
    }
}

/// The depth of a profile is that of its deepest stack.
pub proof fn law_deepest<T>(threads: Seq<ThreadModel<T>>)
    ensures
        forall|t: int|
            0 <= t < threads.len() ==> (#[trigger] threads[t]).max_depth() <= deepest_of(threads),
        threads.len() > 0 ==> exists|t: int|
            0 <= t < threads.len() && (#[trigger] threads[t]).max_depth() == deepest_of(threads),
        threads.len() == 0 ==> deepest_of(threads) == 0,
    decreases threads.len(),
{
    if threads.len() > 0 {
        let rest = threads.drop_last();
        let n = threads.len() - 1;
        law_deepest(rest);
        assert forall|t: int| 0 <= t < threads.len() implies (#[trigger] threads[t]).max_depth()
            <= deepest_of(threads) by {
            if t < n {
                assert(rest[t] == threads[t]);
            }
        }
        if threads[n].max_depth() == deepest_of(threads) {
        } else if rest.len() > 0 {
            let t = choose|t: int|
                0 <= t < rest.len() && (#[trigger] rest[t]).max_depth() == deepest_of(rest);
            assert(threads[t].max_depth() == deepest_of(threads));
        }
    }
}

/// The example is the first sample with a stack: its innermost and its outermost function.
pub proof fn law_example<T>(thread: ThreadModel<T>, i: int)
    requires
        0 <= i < thread.samples.len(),
        thread.samples[i].stack.len() > 0,
        forall|k: int| 0 <= k < i ==> (#[trigger] thread.samples[k]).stack.len() == 0,
    ensures
        ({
            let stack = thread.samples[i].stack;
            example_lines(thread) == seq![
                "  example:    "@ + thread.frames[stack[0] as int].key() + " ... "@
                    + thread.frames[stack[stack.len() - 1] as int].key(),
            ]
        }),
{
    lemma_first_stack_at(thread.samples, 0, i);
}

proof fn lemma_first_stack_at<T>(samples: Seq<SampleModel<T>>, from: int, i: int)
    requires
        0 <= from <= i < samples.len(),
        samples[i].stack.len() > 0,
        forall|k: int| from <= k < i ==> (#[trigger] samples[k]).stack.len() == 0,
    ensures
        first_stack(samples, from) == i,
    decreases i - from,
{
    if from < i {
        assert(samples[from].stack.len() == 0);
        lemma_first_stack_at(samples, from + 1, i);
    }
}

/// The node whose counts are reported is the first, parents before children: the counts of
/// all nodes before it add up.
pub proof fn law_violation_is_first(nodes: Seq<CallNode>, b: Seq<int>) -> (at: Seq<int>)
    requires
        violation(nodes) is Some,
        is_place(nodes, b),
    ensures
        is_place(nodes, at),
        ({
            let (own, below, total) = violation(nodes)->0;
            &&& own == node_at(nodes, at).self_samples
            &&& below == added(node_at(nodes, at).children@)
            &&& total == node_at(nodes, at).total_samples
        }),
        path_before(b, at) ==> node_at(nodes, b).self_samples + added(node_at(nodes, b).children@)
            == node_at(nodes, b).total_samples,
    decreases nodes,
{
    let node = nodes[0];
    law_sum_totals(node.children@);
    if node.self_samples + level_sum(node.children@) != node.total_samples {
        let at = seq![0int];
        assert(at.skip(1).len() == 0);
        assert(!path_before(b.skip(1), at.skip(1)));
        at
    } else if violation(nodes[0].children@) is Some {
        if b[0] == 0 && b.len() > 1 {
            let rest = law_violation_is_first(nodes[0].children@, b.skip(1));
            let at = seq![0int] + rest;
            assert(at.skip(1) =~= rest);
            at
        } else {
            let rest = law_violation_is_real(nodes[0].children@);
            let at = seq![0int] + rest;
            assert(at.skip(1) =~= rest);
            at
        }
    } else {
        let others = nodes.subrange(1, nodes.len() as int);
        if b[0] == 0 {
            let found = law_violation_is_real(others);
            let at = seq![found[0] + 1] + found.skip(1);
            assert(at.skip(1) =~= found.skip(1));
            assert(others[found[0]] == nodes[at[0]]);
            if b.len() > 1 {
                law_no_violation(nodes[0].children@, b.skip(1));
            }
            at
        } else {
            let c = seq![b[0] - 1] + b.skip(1);
            assert(c.skip(1) =~= b.skip(1));
            assert(others[c[0]] == nodes[b[0]]);
            let found = law_violation_is_first(others, c);
            let at = seq![found[0] + 1] + found.skip(1);
            assert(at.skip(1) =~= found.skip(1));
            assert(others[found[0]] == nodes[at[0]]);
            at
        }
    }
}

/// The summary ends with the example of the first thread of the order.
pub proof fn law_summary_ends_with_the_example<T>(
    path: Seq<char>,
    threads: Seq<ThreadModel<T>>,
    order: Seq<usize>,
    i: int,
)
    requires
        order.len() > 0,
        ({
            let samples = threads[order[0] as int].samples;
            &&& 0 <= i < samples.len()
            &&& samples[i].stack.len() > 0
            &&& forall|k: int| 0 <= k < i ==> (#[trigger] samples[k]).stack.len() == 0
        }),
    ensures
        ({
            let lines = summary_of(path, threads, order);
            let thread = threads[order[0] as int];
            let stack = thread.samples[i].stack;
            &&& lines.len() == (if order.len() > 10 {
                18
            } else {
                7 + order.len() as int
            })
            &&& lines.last() == "  example:    "@ + thread.frames[stack[0] as int].key() + " ... "@
                + thread.frames[stack[stack.len() - 1] as int].key()
        }),
{
    let shown = if order.len() < 10 {
        order.len() as int
    } else {
        10
    };
    lemma_thread_lines(threads, order, shown);
    law_example(threads[order[0] as int], i);
}

/// What is said of a failed check names the thread and the counts.
pub proof fn law_check_texts<T>(label: Seq<char>, counts: (nat, nat, nat), thread: Thread<T>)
    ensures
        violation_text(label, counts) == "thread "@ + label
            + ": span sample counts do not conserve ("@ + decimal(counts.0) + " self + "@
            + decimal(counts.1) + " children != "@ + decimal(counts.2) + " total)"@,
        exists|covered: int, all: int|
            {
                &&& #[trigger] uncovered_counts(thread, covered, all)
                &&& uncovered_text(thread@) == "thread "@ + thread@.label() + ": roots cover "@
                    + decimal(covered as nat) + " events, expected "@ + decimal(all as nat)
            },
{
    let covered = deep_sum(thread@.samples, 1);
    let all = weight_sum(thread@.samples) as int;
    law_deep_sum(thread@.samples, 1);
    law_weight_sum(thread@.samples);
    assert(uncovered_counts(thread, covered, all));
}

/// The events of the samples that have a stack, and those of all samples.
pub open spec fn uncovered_counts<T>(thread: Thread<T>, covered: int, all: int) -> bool {
    &&& covered == thread@.samples.fold_left(
        0int,
        |sum: int, s: SampleModel<T>|
            if s.stack.len() >= 1 {
                sum + s.weight
            } else {
                sum
            },
    )
    &&& all == thread@.samples.fold_left(0int, |sum: int, s: SampleModel<T>| sum + s.weight)
}

} // verus!
