//! The viewer's state and texts: what is shown, how input changes it, and what its
//! labels say. Drawing is not part of the library.

use crate::flame::functions::FunctionStat;
use crate::sort::{lemma_same_values, sort, Ranked};
use crate::text::{
    chars_of, comes_before, decimal, law_text_before, lemma_text_order, padded, push_decimal, push_padded, same_text,
    text_before, views,
};
use vstd::prelude::*;

verus! {

// ---------------------------------------------------------------------------
// Views
// ---------------------------------------------------------------------------

/// How the current thread is visualised.
#[derive(Debug, Clone, Copy, PartialEq, Eq, Structural)]
pub enum ViewMode {
    /// Every thread's flame chart; pick one to inspect in detail.
    Overview,
    /// Time-ordered flame chart.
    FlameChart,
    /// Left-heavy flame graph.
    FlameGraph,
    /// Flat function table.
    Top,
}

impl ViewMode {
    /// The view after this one.
    pub open spec fn next_spec(self) -> ViewMode {
        match self {
            ViewMode::Overview => ViewMode::FlameChart,
            ViewMode::FlameChart => ViewMode::FlameGraph,
            ViewMode::FlameGraph => ViewMode::Top,
            ViewMode::Top => ViewMode::Overview,
        }
    }

    /// What the view is called.
    pub open spec fn label_spec(self) -> Seq<char> {
        match self {
            ViewMode::Overview => "overview (all threads)"@,
            ViewMode::FlameChart => "flame chart (time)"@,
            ViewMode::FlameGraph => "flame graph (left-heavy)"@,
            ViewMode::Top => "top functions"@,
        }
    }

    /// The view after this one.
    pub fn next(self) -> (r: Self)
        ensures
            r == self.next_spec(),
    {
        match self {
            ViewMode::Overview => ViewMode::FlameChart,
            ViewMode::FlameChart => ViewMode::FlameGraph,
            ViewMode::FlameGraph => ViewMode::Top,
            ViewMode::Top => ViewMode::Overview,
        }
    }

    /// What the view is called.
    pub fn label(self) -> (r: &'static str)
        ensures
            r@ == self.label_spec(),
    {
        match self {
            ViewMode::Overview => "overview (all threads)",
            ViewMode::FlameChart => "flame chart (time)",
            ViewMode::FlameGraph => "flame graph (left-heavy)",
            ViewMode::Top => "top functions",
        }
    }
}

/// The column that the function table is sorted by.
#[derive(Debug, Clone, Copy, PartialEq, Eq, Structural)]
pub enum TopSort {
    /// Exclusive time.
    SelfTime,
    /// Inclusive time.
    TotalTime,
    /// Name.
    Name,
}

impl TopSort {
    /// The column after this one.
    pub open spec fn next_spec(self) -> TopSort {
        match self {
            TopSort::SelfTime => TopSort::TotalTime,
            TopSort::TotalTime => TopSort::Name,
            TopSort::Name => TopSort::SelfTime,
        }
    }

    /// What the column is called.
    pub open spec fn label_spec(self) -> Seq<char> {
        match self {
            TopSort::SelfTime => "self time"@,
            TopSort::TotalTime => "total time"@,
            TopSort::Name => "name"@,
        }
    }

    /// The column after this one.
    pub fn next(self) -> (r: Self)
        ensures
            r == self.next_spec(),
    {
        match self {
            TopSort::SelfTime => TopSort::TotalTime,
            TopSort::TotalTime => TopSort::Name,
            TopSort::Name => TopSort::SelfTime,
        }
    }

    /// What the column is called.
    pub fn label(self) -> (r: &'static str)
        ensures
            r@ == self.label_spec(),
    {
        match self {
            TopSort::SelfTime => "self time",
            TopSort::TotalTime => "total time",
            TopSort::Name => "name",
        }
    }
}

/// Going on to the next view comes by every view and then back.
pub proof fn law_views_cycle(mode: ViewMode, other: ViewMode)
    ensures
        mode.next_spec().next_spec().next_spec().next_spec() == mode,
        other == mode || other == mode.next_spec() || other == mode.next_spec().next_spec()
            || other == mode.next_spec().next_spec().next_spec(),
{
}

/// Going on to the next column comes by every column and then back.
pub proof fn law_sorts_cycle(sort: TopSort, other: TopSort)
    ensures
        sort.next_spec().next_spec().next_spec() == sort,
        other == sort || other == sort.next_spec() || other == sort.next_spec().next_spec(),
{
}

/// The view and the sort column after keys were pressed: `tab` goes on to the next
/// view, `escape` back to the overview, and `s` to the next column where the table
/// is then shown.
pub open spec fn toggled(
    mode: ViewMode,
    sort: TopSort,
    tab: bool,
    escape: bool,
    s: bool,
) -> (ViewMode, TopSort) {
    let turned = if tab {
        mode.next_spec()
    } else {
        mode
    };
    let shown = if escape {
        ViewMode::Overview
    } else {
        turned
    };
    (
        shown,
        if s && shown == ViewMode::Top {
            sort.next_spec()
        } else {
            sort
        },
    )
}

/// Applies the keys that change the view.
pub fn toggle_view(mode: ViewMode, sort: TopSort, tab: bool, escape: bool, s: bool) -> (r: (
    ViewMode,
    TopSort,
))
    ensures
        r == toggled(mode, sort, tab, escape, s),
{
    let mut mode = mode;
    let mut sort = sort;
    if tab {
        mode = mode.next();
    }
    if escape && mode != ViewMode::Overview {
        mode = ViewMode::Overview;
    }
    if s && mode == ViewMode::Top {
        sort = sort.next();
    }
    (mode, sort)
}

// ---------------------------------------------------------------------------
// The selected thread
// ---------------------------------------------------------------------------

/// Which thread is shown and the order to go through them.
pub struct ThreadView {
    /// Thread indices, busiest first.
    pub order: Vec<usize>,
    /// The place in the order of the thread that is shown.
    pub cursor: usize,
}

/// The keys and the click that the overview reacts to.
#[derive(Debug, Clone, Copy)]
pub struct OverviewInput {
    pub right: bool,
    pub left: bool,
    pub down: bool,
    pub up: bool,
    /// A key that opens the selected thread.
    pub open: bool,
    /// The cell that was clicked.
    pub clicked: Option<usize>,
}

/// `n` within `0..=max`.
pub open spec fn clamped(n: int, max: int) -> int {
    if n < 0 {
        0
    } else if n > max {
        max
    } else {
        n
    }
}

/// 1 where a key was pressed.
pub open spec fn pressed(key: bool) -> int {
    if key {
        1
    } else {
        0
    }
}

/// Where the selection is after arrow keys, in a grid of `cols` columns.
pub open spec fn moved(cursor: int, count: int, cols: int, input: OverviewInput) -> int {
    let wide = if cols < 1 {
        1
    } else {
        cols
    };
    clamped(
        cursor + pressed(input.right) - pressed(input.left) + (pressed(input.down) - pressed(
            input.up,
        )) * wide,
        count - 1,
    )
}

/// Where the selection of the overview is after input, and the view to show then.
pub open spec fn overview_after(
    cursor: int,
    count: int,
    mode: ViewMode,
    cols: int,
    input: OverviewInput,
) -> (int, ViewMode) {
    if mode != ViewMode::Overview || count == 0 {
        (cursor, mode)
    } else {
        match input.clicked {
            Some(slot) => (slot as int, ViewMode::FlameChart),
            None => (
                moved(cursor, count, cols, input),
                if input.open {
                    ViewMode::FlameChart
                } else {
                    mode
                },
            ),
        }
    }
}

impl ThreadView {
    /// The cursor is at a thread of the order, if there is one.
    pub open spec fn wf(&self) -> bool {
        self.cursor < self.order@.len() || (self.order@.len() == 0 && self.cursor == 0)
    }

    /// A view of the first thread of `order`.
    pub fn new(order: Vec<usize>) -> (r: Self)
        ensures
            r.wf(),
            r.order@ == order@,
            r.cursor == 0,
    {
        ThreadView { order, cursor: 0 }
    }

    /// The index of the thread that is shown.
    pub fn selected(&self) -> (r: Option<usize>)
        ensures
            r == (if self.cursor < self.order@.len() {
                Some(self.order@[self.cursor as int])
            } else {
                None
            }),
    {
        if self.cursor < self.order.len() {
            Some(self.order[self.cursor])
        } else {
            None
        }
    }

    /// Goes on to the next thread, or else back to the previous one, round the end
    /// of the order.
    pub fn switch_thread(&mut self, next: bool, previous: bool)
        requires
            old(self).wf(),
        ensures
            final(self).wf(),
            final(self).order@ == old(self).order@,
            final(self).cursor == switched(
                old(self).cursor as int,
                old(self).order@.len() as int,
                next,
                previous,
            ),
    {
        let count = self.order.len();
        if count < 2 {
            return;
        }
        let ghost at = self.cursor as int;
        let ghost n = count as int;
        if next {
            proof {
                if at + 1 < n {
                    assert((at + 1) % n == at + 1) by (nonlinear_arith)
                        requires
                            0 <= at + 1 < n,
                    ;
                } else {
                    assert(n % n == 0) by (nonlinear_arith)
                        requires
                            n > 0,
                    ;
                }
            }
            if self.cursor + 1 < count {
                self.cursor = self.cursor + 1;
            } else {
                self.cursor = 0;
            }
        } else if previous {
            proof {
                if at > 0 {
                    assert((at + n - 1) % n == at - 1) by (nonlinear_arith)
                        requires
                            0 < at < n,
                    ;
                } else {
                    assert((n - 1) % n == n - 1) by (nonlinear_arith)
                        requires
                            n > 0,
                    ;
                }
            }
            if self.cursor > 0 {
                self.cursor = self.cursor - 1;
            } else {
                self.cursor = count - 1;
            }
        }
    }

    /// Moves the selection of the overview with the arrow keys, and opens the
    /// selected thread on a key, or the clicked one. The result is the view to show
    /// after that. Nothing happens outside the overview.
    pub fn overview_input(&mut self, mode: ViewMode, cols: usize, input: OverviewInput) -> (r:
        ViewMode)
        requires
            old(self).wf(),
            match input.clicked {
                Some(slot) => slot < old(self).order@.len(),
                None => true,
            },
        ensures
            final(self).wf(),
            final(self).order@ == old(self).order@,
            (final(self).cursor as int, r) == overview_after(
                old(self).cursor as int,
                old(self).order@.len() as int,
                mode,
                cols as int,
                input,
            ),
            mode != ViewMode::Overview || old(self).order@.len() == 0 ==> r == mode
                && final(self).cursor == old(self).cursor,
            mode == ViewMode::Overview && old(self).order@.len() > 0 ==> {
                &&& final(self).cursor == (match input.clicked {
                    Some(slot) => slot as int,
                    None => moved(
                        old(self).cursor as int,
                        old(self).order@.len() as int,
                        cols as int,
                        input,
                    ),
                })
                &&& r == (if input.open || input.clicked is Some {
                    ViewMode::FlameChart
                } else {
                    mode
                })
            },
    {
        if mode != ViewMode::Overview {
            return mode;
        }
        let count = self.order.len();
        if count == 0 {
            return mode;
        }
        let wide: i128 = if cols < 1 {
            1
        } else {
            cols as i128
        };
        let mut cursor: i128 = self.cursor as i128;
        if input.right {
            cursor = cursor + 1;
        }
        if input.left {
            cursor = cursor - 1;
        }
        if input.down {
            cursor = cursor + wide;
        }
        if input.up {
            cursor = cursor - wide;
        }
        let max: i128 = count as i128 - 1;
        if cursor < 0 {
            cursor = 0;
        }
        if cursor > max {
            cursor = max;
        }
        self.cursor = cursor as usize;
        proof {
            let turn = pressed(input.down) - pressed(input.up);
            let w = wide as int;
            assert(turn == 0 || turn == 1 || turn == -1);
            assert(0 * w == 0 && 1 * w == w && (-1) * w == -w) by (nonlinear_arith);
        }
        let mut open = input.open;
        if let Some(slot) = input.clicked {
            self.cursor = slot;
            open = true;
        }
        if open {
            ViewMode::FlameChart
        } else {
            mode
        }
    }
}

/// The place in an order of `count` threads after the keys for the next and the
/// previous thread.
pub open spec fn switched(cursor: int, count: int, next: bool, previous: bool) -> int {
    if count < 2 {
        cursor
    } else if next {
        (cursor + 1) % count
    } else if previous {
        (cursor + count - 1) % count
    } else {
        cursor
    }
}

/// The keys for the next and the previous thread undo each other.
pub proof fn law_switch_back(cursor: int, count: int)
    requires
        0 <= cursor < count,
    ensures
        switched(switched(cursor, count, true, false), count, false, true) == cursor,
        switched(switched(cursor, count, false, true), count, true, false) == cursor,
        0 <= switched(cursor, count, true, false) < count,
        0 <= switched(cursor, count, false, true) < count,
{
    if count >= 2 {
        let a = (cursor + 1) % count;
        let b = (cursor + count - 1) % count;
        if cursor + 1 < count {
            assert(a == cursor + 1) by (nonlinear_arith)
                requires
                    a == (cursor + 1) % count,
                    0 <= cursor + 1 < count,
            ;
        } else {
            assert(a == 0) by (nonlinear_arith)
                requires
                    a == (cursor + 1) % count,
                    cursor + 1 == count,
                    count > 0,
            ;
        }
        if cursor > 0 {
            assert(b == cursor - 1) by (nonlinear_arith)
                requires
                    b == (cursor + count - 1) % count,
                    0 < cursor < count,
            ;
        } else {
            assert(b == count - 1) by (nonlinear_arith)
                requires
                    b == (count - 1) % count,
                    count > 0,
            ;
        }
        assert((a + count - 1) % count == cursor) by (nonlinear_arith)
            requires
                a == cursor + 1 || (a == 0 && cursor == count - 1),
                0 <= cursor < count,
        ;
        assert((b + 1) % count == cursor) by (nonlinear_arith)
            requires
                b == cursor - 1 || (b == count - 1 && cursor == 0),
                0 <= cursor < count,
        ;
    }
}

// ---------------------------------------------------------------------------
// Labels
// ---------------------------------------------------------------------------

/// The first `n` characters.
fn first_chars(chars: &Vec<char>, n: usize) -> (r: String)
    requires
        n <= chars@.len(),
    ensures
        r@ == chars@.take(n as int),
{
    let mut out = String::new();
    assert(out@ =~= chars@.take(0));
    for i in 0..n
        invariant
            n <= chars@.len(),
            out@ == chars@.take(i as int),
    {
        let c: char = chars[i];
        out.push(c);
        assert(out@ =~= chars@.take(i + 1));
    }
    out
}

/// A name cut to at most `max` characters, with an ellipsis where there is room for
/// one.
pub open spec fn truncated(name: Seq<char>, max: nat) -> Seq<char> {
    if name.len() <= max {
        name
    } else if max <= 1 {
        name.take(max as int)
    } else {
        name.take(max - 1).push('…')
    }
}

/// Cuts an over-long name so that a table stays readable.
pub fn truncate_name(name: &str, max: usize) -> (r: String)
    ensures
        r@ == truncated(name@, max as nat),
{
    let chars = chars_of(name);
    if chars.len() <= max {
        return name.to_string();
    }
    if max <= 1 {
        return first_chars(&chars, max);
    }
    let mut out = first_chars(&chars, max - 1);
    out.push('…');
    out
}

/// A label cut to at most `max` characters, with two points where characters were
/// dropped and there is room for the points.
pub open spec fn fitted(full: Seq<char>, max: nat) -> Seq<char> {
    if full.len() <= max {
        full
    } else if max < 2 {
        full.take(max as int)
    } else {
        full.take(max - 2) + seq!['.', '.']
    }
}

/// Cuts a brick's label to the characters that fit in it.
pub fn fit_label(full: &str, max_chars: usize) -> (r: String)
    ensures
        r@ == fitted(full@, max_chars as nat),
{
    let chars = chars_of(full);
    if chars.len() <= max_chars {
        return full.to_string();
    }
    if max_chars < 2 {
        return first_chars(&chars, max_chars);
    }
    let mut out = first_chars(&chars, max_chars - 2);
    out.push('.');
    out.push('.');
    assert(out@ =~= fitted(full@, max_chars as nat));
    out
}

/// A cut name or label is no longer than it may be, and one that fits is not cut.
pub proof fn law_cut_texts_fit(text: Seq<char>, max: nat)
    ensures
        truncated(text, max).len() <= max,
        fitted(text, max).len() <= max,
        text.len() <= max ==> truncated(text, max) == text && fitted(text, max) == text,
{
}

/// How many colours there are.
pub const PALETTE_SIZE: u64 = 64;

/// The colour of a function whose name has the given hash.
pub fn palette_slot(hash: u64) -> (r: usize)
    ensures
        r == hash % 64,
        r < PALETTE_SIZE,
{
    (hash % PALETTE_SIZE) as usize
}

/// How a brick is highlighted.
#[derive(Debug, Clone, Copy, PartialEq, Eq, Structural)]
pub enum Highlight {
    /// It is under the cursor.
    Hovered,
    /// It shares its function with the brick under the cursor.
    Group,
    /// It is not highlighted.
    Plain,
}

/// How a brick of the function `key` is highlighted.
pub open spec fn highlighted(
    hovered: bool,
    hovered_key: Option<Seq<char>>,
    key: Seq<char>,
) -> Highlight {
    if hovered {
        Highlight::Hovered
    } else if hovered_key == Some(key) {
        Highlight::Group
    } else {
        Highlight::Plain
    }
}

/// How a brick of the function `key` is highlighted.
pub fn highlight(hovered: bool, hovered_key: Option<&str>, key: &str) -> (r: Highlight)
    ensures
        r == highlighted(
            hovered,
            match hovered_key {
                Some(other) => Some(other@),
                None => None,
            },
            key@,
        ),
        r == (if hovered {
            Highlight::Hovered
        } else if hovered_key is Some && hovered_key.unwrap()@ == key@ {
            Highlight::Group
        } else {
            Highlight::Plain
        }),
{
    if hovered {
        return Highlight::Hovered;
    }
    match hovered_key {
        Some(other) => if same_text(other, key) {
            Highlight::Group
        } else {
            Highlight::Plain
        },
        None => Highlight::Plain,
    }
}

// ---------------------------------------------------------------------------
// The function table
// ---------------------------------------------------------------------------

/// A row's place in the order of names.
struct NameRank {
    key: String,
    index: usize,
}

/// One name comes before another, or the names are the same and one row stands
/// before the other.
pub open spec fn name_before(rows: Seq<FunctionStat>, a: int, b: int) -> bool {
    text_before(rows[a].key@, rows[b].key@) || (rows[a].key@ == rows[b].key@ && a < b)
}

impl Ranked for NameRank {
    closed spec fn precedes(&self, other: &Self) -> bool {
        text_before(self.key@, other.key@) || (self.key@ == other.key@ && self.index < other.index)
    }

    proof fn asymmetric(a: &Self, b: &Self) {
        lemma_text_order(a.key@, b.key@, a.key@);
        lemma_text_order(b.key@, a.key@, b.key@);
    }

    proof fn transitive(a: &Self, b: &Self, c: &Self) {
        lemma_text_order(a.key@, b.key@, c.key@);
        lemma_text_order(b.key@, c.key@, a.key@);
        lemma_text_order(c.key@, b.key@, a.key@);
        lemma_text_order(c.key@, a.key@, b.key@);
        lemma_text_order(a.key@, c.key@, b.key@);
        lemma_text_order(b.key@, a.key@, c.key@);
    }

    fn comes_first(&self, other: &Self) -> (r: bool) {
        if comes_before(self.key.as_str(), other.key.as_str()) {
            true
        } else if same_text(self.key.as_str(), other.key.as_str()) {
            self.index < other.index
        } else {
            false
        }
    }
}

/// `order` lists every row once, by name.
pub open spec fn ordered_by_name(order: Seq<usize>, rows: Seq<FunctionStat>) -> bool {
    &&& order.len() == rows.len()
    &&& forall|i: int| 0 <= i < order.len() ==> (#[trigger] order[i] as int) < rows.len()
    &&& forall|i: int, j: int|
        0 <= i < j < order.len() ==> name_before(
            rows,
            #[trigger] order[i] as int,
            #[trigger] order[j] as int,
        )
    &&& forall|k: usize| (k as int) < rows.len() ==> #[trigger] order.contains(k)
}

/// The rows of a table by name.
pub fn name_order(rows: &Vec<FunctionStat>) -> (r: Vec<usize>)
    ensures
        ordered_by_name(r@, rows@),
{
    let n = rows.len();
    let mut ranks: Vec<NameRank> = Vec::new();
    for i in 0..n
        invariant
            n == rows@.len(),
            ranks@.len() == i,
            forall|k: int|
                0 <= k < i ==> (#[trigger] ranks@[k]).index == k && ranks@[k].key@ == rows@[k].key@,
    {
        ranks.push(NameRank { key: rows[i].key.as_str().to_string(), index: i });
    }
    let ghost listed = ranks@;
    let sorted = sort(ranks);
    proof {
        lemma_same_values(listed, sorted@);
        assert(listed.no_duplicates());
        listed.lemma_multiset_has_no_duplicates();
        sorted@.lemma_multiset_has_no_duplicates_conv();
        assert forall|k: int| 0 <= k < n implies (#[trigger] sorted@[k]).index < n && sorted@[k]
            == listed[sorted@[k].index as int] by {
            assert(sorted@.contains(sorted@[k]));
            assert(listed.contains(sorted@[k]));
        }
    }
    let mut order: Vec<usize> = Vec::new();
    for i in 0..n
        invariant
            n == sorted@.len(),
            order@.len() == i,
            forall|k: int| 0 <= k < i ==> #[trigger] order@[k] == sorted@[k].index,
    {
        order.push(sorted[i].index);
    }
    proof {
        assert forall|i: int, j: int| 0 <= i < j < order@.len() implies name_before(
            rows@,
            #[trigger] order@[i] as int,
            #[trigger] order@[j] as int,
        ) by {
            let a = sorted@[i];
            let b = sorted@[j];
            assert(!b.precedes(&a));
            assert(a != b);
            assert(listed[a.index as int] == a && listed[b.index as int] == b);
            assert(rows@[a.index as int].key@ == a.key@);
            assert(rows@[b.index as int].key@ == b.key@);
            lemma_text_order(a.key@, b.key@, a.key@);
        }
        assert forall|k: usize| (k as int) < rows@.len() implies #[trigger] order@.contains(k) by {
            assert(listed.contains(listed[k as int]));
            assert(sorted@.contains(listed[k as int]));
            let i = choose|i: int| 0 <= i < sorted@.len() && sorted@[i] == listed[k as int];
            assert(order@[i] == k);
        }
    }
    order
}

/// The line of a function in the table.
pub open spec fn top_line_spec(
    self_pct: Seq<char>,
    self_time: Seq<char>,
    total_time: Seq<char>,
    key: Seq<char>,
) -> Seq<char> {
    "  "@ + padded(self_pct, 5) + "  "@ + padded(self_time, 10) + "  "@ + padded(total_time, 11)
        + "  "@ + truncated(key, 70) + "\n"@
}

/// The line of a function in the table.
pub fn top_line(self_pct: &str, self_time: &str, total_time: &str, key: &str) -> (r: String)
    ensures
        r@ == top_line_spec(self_pct@, self_time@, total_time@, key@),
{
    let mut out = String::new();
    let name = truncate_name(key, 70);
    out.append("  ");
    push_padded(&mut out, self_pct, 5);
    out.append("  ");
    push_padded(&mut out, self_time, 10);
    out.append("  ");
    push_padded(&mut out, total_time, 11);
    out.append("  ");
    out.append(name.as_str());
    out.append("\n");
    assert(out@ =~= top_line_spec(self_pct@, self_time@, total_time@, key@));
    out
}

/// The first `n` lines of a list, one after the other.
pub open spec fn stacked(lines: Seq<Seq<char>>, n: int) -> Seq<char>
    decreases n,
{
    if n <= 0 {
        Seq::empty()
    } else {
        stacked(lines, n - 1) + lines[n - 1]
    }
}

/// The table of functions: its heading and at most forty lines.
pub fn top_table(lines: &Vec<String>) -> (r: String)
    ensures
        r@ == "  self%   self time   total time  function\n"@ + stacked(
            views(lines@),
            if lines@.len() < 40 {
                lines@.len() as int
            } else {
                40
            },
        ),
{
    let shown = if lines.len() < 40 {
        lines.len()
    } else {
        40
    };
    let mut out = String::new();
    out.append("  self%   self time   total time  function\n");
    let ghost heading = out@;
    let ghost all = views(lines@);
    assert(out@ =~= heading + stacked(all, 0));
    for i in 0..shown
        invariant
            shown <= lines@.len(),
            all == views(lines@),
            out@ == heading + stacked(all, i as int),
    {
        out.append(lines[i].as_str());
        assert(all[i as int] == lines@[i as int]@);
        assert(out@ =~= heading + stacked(all, i + 1));
    }
    assert(heading =~= "  self%   self time   total time  function\n"@);
    out
}

// ---------------------------------------------------------------------------
// Headers and panels
// ---------------------------------------------------------------------------

/// What a thread's cell in the overview is called.
pub fn cell_label(label: &str, samples: usize, max_chars: usize) -> (r: String)
    ensures
        r@ == truncated(
            label@ + "  ("@ + decimal(samples as nat) + ")"@,
            max_chars as nat,
        ),
{
    let mut out = String::new();
    out.append(label);
    out.append("  (");
    push_decimal(&mut out, samples as u64);
    out.append(")");
    assert(out@ =~= label@ + "  ("@ + decimal(samples as nat) + ")"@);
    truncate_name(out.as_str(), max_chars)
}

/// Where a thread sits on the profile's timeline: how long it spans and, where it
/// did not start with the profile, how much later and how long the profile spans.
pub fn timing_summary(span: &str, late: Option<(&str, &str)>) -> (r: String)
    ensures
        r@ == (match late {
            Some((after, profile_span)) => "spans "@ + span@ + "  ·  first sample +"@ + after@
                + " after profile start (profile spans "@ + profile_span@ + ")"@,
            None => "spans "@ + span@ + "  ·  starts at profile start"@,
        }),
{
    let mut out = String::new();
    out.append("spans ");
    out.append(span);
    match late {
        Some((after, profile_span)) => {
            out.append("  ·  first sample +");
            out.append(after);
            out.append(" after profile start (profile spans ");
            out.append(profile_span);
            out.append(")");
            assert(out@ =~= "spans "@ + span@ + "  ·  first sample +"@ + after@
                + " after profile start (profile spans "@ + profile_span@ + ")"@);
        },
        None => {
            out.append("  ·  starts at profile start");
            assert(out@ =~= "spans "@ + span@ + "  ·  starts at profile start"@);
        },
    }
    out
}

/// The header of the overview.
pub fn overview_header(threads: usize, label: &str) -> (r: String)
    ensures
        r@ == "Overview — "@ + decimal(threads as nat) + " threads  ·  selected: "@ + label@
            + "\narrows or click select a thread  ·  Enter / click opens it  ·  Tab cycles views"@,
{
    let mut out = String::new();
    out.append("Overview — ");
    push_decimal(&mut out, threads as u64);
    out.append(" threads  ·  selected: ");
    out.append(label);
    out.append(
        "\narrows or click select a thread  ·  Enter / click opens it  ·  Tab cycles views",
    );
    assert(out@ =~= "Overview — "@ + decimal(threads as nat) + " threads  ·  selected: "@ + label@
        + "\narrows or click select a thread  ·  Enter / click opens it  ·  Tab cycles views"@);
    out
}

/// What the header of a thread says.
pub struct ThreadHeader {
    /// The place of the thread in the order.
    pub cursor: usize,
    /// How many threads there are.
    pub count: usize,
    pub label: String,
    pub samples: usize,
    pub events: u64,
    pub depth: usize,
    /// Where the thread sits on the profile's timeline.
    pub timing: String,
    pub mode: ViewMode,
    pub sort: TopSort,
    /// The size of the table's font.
    pub font: String,
}

/// What the header says about the table's font and sort column, where it is shown.
pub open spec fn sort_hint(header: ThreadHeader) -> Seq<char> {
    if header.mode == ViewMode::Top {
        "  ·  +/- font ("@ + header.font@ + "px)  ·  S sort ("@ + header.sort.label_spec() + ")"@
    } else {
        Seq::empty()
    }
}

/// The header of a thread.
pub open spec fn thread_header_spec(h: ThreadHeader) -> Seq<char> {
    "Thread "@ + decimal(h.cursor as nat + 1) + "/"@ + decimal(h.count as nat) + ": "@ + h.label@
        + "  ("@ + decimal(h.samples as nat) + " samples, "@ + decimal(h.events as nat)
        + " events, depth "@ + decimal(h.depth as nat) + ")\n"@ + h.timing@ + "\nview: "@
        + h.mode.label_spec() + "  ·  Tab switch view"@ + sort_hint(h)
        + "\n[ ] thread  ·  arrows pan  ·  Z/X time zoom  ·  C/V depth zoom  ·  hold Alt: sample ticks + timestamps"@
}

/// The header of a thread.
pub fn thread_header(h: &ThreadHeader) -> (r: String)
    requires
        h.cursor < h.count,
    ensures
        r@ == thread_header_spec(*h),
{
    let mut out = String::new();
    out.append("Thread ");
    push_decimal(&mut out, (h.cursor + 1) as u64);
    out.append("/");
    push_decimal(&mut out, h.count as u64);
    out.append(": ");
    out.append(h.label.as_str());
    out.append("  (");
    push_decimal(&mut out, h.samples as u64);
    out.append(" samples, ");
    push_decimal(&mut out, h.events);
    out.append(" events, depth ");
    push_decimal(&mut out, h.depth as u64);
    out.append(")\n");
    out.append(h.timing.as_str());
    out.append("\nview: ");
    out.append(h.mode.label());
    out.append("  ·  Tab switch view");
    let ghost before = out@;
    if h.mode == ViewMode::Top {
        out.append("  ·  +/- font (");
        out.append(h.font.as_str());
        out.append("px)  ·  S sort (");
        out.append(h.sort.label());
        out.append(")");
    }
    assert(out@ =~= before + sort_hint(*h));
    out.append(
        "\n[ ] thread  ·  arrows pan  ·  Z/X time zoom  ·  C/V depth zoom  ·  hold Alt: sample ticks + timestamps",
    );
    assert(out@ =~= thread_header_spec(*h));
    out
}

/// The times and shares of a function, as they are shown.
pub struct ShownTimes {
    pub self_time: String,
    pub self_pct: String,
    pub total_time: String,
    pub total_pct: String,
}

/// The panel of the function under the cursor.
pub open spec fn info_spec(row: FunctionStat, times: ShownTimes) -> Seq<char> {
    row.key@ + "\nself:  "@ + times.self_time@ + " ("@ + times.self_pct@ + "%, "@ + decimal(
        row.self_events as nat,
    ) + " ev)\ntotal: "@ + times.total_time@ + " ("@ + times.total_pct@ + "%, "@ + decimal(
        row.total_events as nat,
    ) + " ev)"@
}

/// The panel of the function under the cursor.
pub fn info_panel(row: &FunctionStat, times: &ShownTimes) -> (r: String)
    ensures
        r@ == info_spec(*row, *times),
{
    let mut out = String::new();
    out.append(row.key.as_str());
    out.append("\nself:  ");
    out.append(times.self_time.as_str());
    out.append(" (");
    out.append(times.self_pct.as_str());
    out.append("%, ");
    push_decimal(&mut out, row.self_events);
    out.append(" ev)\ntotal: ");
    out.append(times.total_time.as_str());
    out.append(" (");
    out.append(times.total_pct.as_str());
    out.append("%, ");
    push_decimal(&mut out, row.total_events);
    out.append(" ev)");
    assert(out@ =~= info_spec(*row, *times));
    out
}

/// The row of a function, if it has one.
pub fn find_row(rows: &Vec<FunctionStat>, key: &str) -> (r: Option<usize>)
    ensures
        match r {
            Some(i) => i < rows@.len() && rows@[i as int].key@ == key@ && forall|k: int|
                0 <= k < i ==> (#[trigger] rows@[k]).key@ != key@,
            None => forall|k: int| 0 <= k < rows@.len() ==> (#[trigger] rows@[k]).key@ != key@,
        },
{
    let n = rows.len();
    for i in 0..n
        invariant
            n == rows@.len(),
            forall|k: int| 0 <= k < i ==> (#[trigger] rows@[k]).key@ != key@,
    {
        if same_text(rows[i].key.as_str(), key) {
            return Some(i);
        }
    }
    None
}

/// What the empty window says.
pub open spec fn drop_prompt_spec() -> Seq<char> {
    "Drop a profile file here to open it\n\nperf script, perf JSON, or Firefox/Gecko JSON"@
}

/// What the empty window says.
pub fn drop_prompt() -> (r: &'static str)
    ensures
        r@ == drop_prompt_spec(),
{
    "Drop a profile file here to open it\n\nperf script, perf JSON, or Firefox/Gecko JSON"
}

/// What the window says when a file could not be opened.
pub fn drop_error(path: &str, error: &str) -> (r: String)
    ensures
        r@ == "Could not open "@ + path@ + "\n\n"@ + error@ + "\n\n"@ + drop_prompt_spec(),
{
    let mut out = String::new();
    out.append("Could not open ");
    out.append(path);
    out.append("\n\n");
    out.append(error);
    out.append("\n\n");
    out.append(drop_prompt());
    assert(out@ =~= "Could not open "@ + path@ + "\n\n"@ + error@ + "\n\n"@ + drop_prompt_spec());
    out
}

/// What is said of a file without samples.
pub fn empty_error(path: &str) -> (r: String)
    ensures
        r@ == path@ + " contains no samples"@,
{
    let mut out = String::new();
    out.append(path);
    out.append(" contains no samples");
    assert(out@ =~= path@ + " contains no samples"@);
    out
}

/// The window's title once a file is open.
pub fn window_title(path: &str) -> (r: String)
    ensures
        r@ == "flamegraph-viewer — "@ + path@,
{
    let mut out = String::new();
    out.append("flamegraph-viewer — ");
    out.append(path);
    assert(out@ =~= "flamegraph-viewer — "@ + path@);
    out
}

// ---------------------------------------------------------------------------
// What holds of the state and the labels
// ---------------------------------------------------------------------------

/// The views follow each other in the order in which they are listed, and so do the
/// columns.
pub proof fn law_order_of_views(mode: ViewMode, sort: TopSort)
    ensures
        mode is Overview <==> mode.next_spec() is FlameChart,
        mode is FlameChart <==> mode.next_spec() is FlameGraph,
        mode is FlameGraph <==> mode.next_spec() is Top,
        mode is Top <==> mode.next_spec() is Overview,
        sort is SelfTime <==> sort.next_spec() is TotalTime,
        sort is TotalTime <==> sort.next_spec() is Name,
        sort is Name <==> sort.next_spec() is SelfTime,
{
}

/// Without a key nothing changes; escape leads to the overview from everywhere; tab alone
/// leads to the next view; and the column changes where `s` is pressed and the table is
/// shown afterwards, and nowhere else.
pub proof fn law_toggled(mode: ViewMode, sort: TopSort, tab: bool, escape: bool, s: bool)
    ensures
        toggled(mode, sort, false, false, false) == (mode, sort),
        toggled(mode, sort, tab, true, s) == (ViewMode::Overview, sort),
        toggled(mode, sort, true, false, s).0 == mode.next_spec(),
        toggled(mode, sort, false, false, s).0 == mode,
        toggled(mode, sort, tab, escape, false).1 == sort,
        mode is Top ==> toggled(mode, sort, false, false, true).1 == sort.next_spec(),
        mode is FlameGraph ==> toggled(mode, sort, true, false, true).1 == sort.next_spec(),
        !(toggled(mode, sort, tab, escape, s).0 is Top) ==> toggled(
            mode,
            sort,
            tab,
            escape,
            s,
        ).1 == sort,
{
}

/// The next thread is the one after, and after the last the first; the previous one is
/// the one before, and before the first the last. Without a key, or with fewer than two
/// threads, the thread stays.
pub proof fn law_switched(cursor: int, count: int, previous: bool)
    requires
        0 <= cursor < count,
    ensures
        count >= 2 && cursor + 1 < count ==> switched(cursor, count, true, previous) == cursor + 1,
        count >= 2 && cursor + 1 == count ==> switched(cursor, count, true, previous) == 0,
        count >= 2 && cursor > 0 ==> switched(cursor, count, false, true) == cursor - 1,
        count >= 2 && cursor == 0 ==> switched(cursor, count, false, true) == count - 1,
        switched(cursor, count, false, false) == cursor,
        count < 2 ==> switched(cursor, count, true, previous) == cursor && switched(
            cursor,
            count,
            false,
            previous,
        ) == cursor,
{
    if count >= 2 {
        let a = (cursor + 1) % count;
        let b = (cursor + count - 1) % count;
        if cursor + 1 < count {
            assert(a == cursor + 1) by (nonlinear_arith)
                requires
                    a == (cursor + 1) % count,
                    0 <= cursor + 1 < count,
            ;
        } else {
            assert(a == 0) by (nonlinear_arith)
                requires
                    a == (cursor + 1) % count,
                    cursor + 1 == count,
                    count > 0,
            ;
        }
        if cursor > 0 {
            assert(b == cursor - 1) by (nonlinear_arith)
                requires
                    b == (cursor + count - 1) % count,
                    0 < cursor < count,
            ;
        } else {
            assert(b == count - 1) by (nonlinear_arith)
                requires
                    b == (count - 1) % count,
                    count > 0,
            ;
        }
    }
}

/// In the overview an arrow to the side leads to the neighbouring cell and one up or down
/// to the cell in the same column, or as far as there are cells. Opposite arrows cancel
/// each other out.
pub proof fn law_moved(cursor: int, count: int, cols: int, input: OverviewInput)
    requires
        0 <= cursor < count,
        cols >= 1,
    ensures
        0 <= moved(cursor, count, cols, input) < count,
        input.right == input.left && input.down == input.up ==> moved(cursor, count, cols, input)
            == cursor,
        input.right && !input.left && input.down == input.up ==> moved(cursor, count, cols, input)
            == (if cursor + 1 < count {
            cursor + 1
        } else {
            cursor
        }),
        input.left && !input.right && input.down == input.up ==> moved(cursor, count, cols, input)
            == (if cursor > 0 {
            cursor - 1
        } else {
            cursor
        }),
        input.down && !input.up && input.right == input.left ==> moved(cursor, count, cols, input)
            == (if cursor + cols < count {
            cursor + cols
        } else {
            count - 1
        }),
        input.up && !input.down && input.right == input.left ==> moved(cursor, count, cols, input)
            == (if cursor >= cols {
            cursor - cols
        } else {
            0
        }),
{
    let turn = pressed(input.down) - pressed(input.up);
    assert(turn == 0 || turn == 1 || turn == -1);
    assert(0 * cols == 0 && 1 * cols == cols && (-1) * cols == -cols) by (nonlinear_arith);
}

/// A name or a label that is cut is a start of the text, as long as may be, and ends with
/// what says that it was cut.
pub proof fn law_cut_texts_say_so(text: Seq<char>, max: nat)
    requires
        text.len() > max,
    ensures
        truncated(text, max).len() == max,
        fitted(text, max).len() == max,
        max >= 2 ==> truncated(text, max).last() == '…' && truncated(text, max).drop_last()
            == text.take(max - 1),
        max < 2 ==> truncated(text, max) == text.take(max as int) && fitted(text, max) == text.take(
            max as int,
        ),
        max >= 2 ==> fitted(text, max).take(max - 2) == text.take(max - 2) && fitted(text, max)[max
            - 2] == '.' && fitted(text, max)[max - 1] == '.',
{
    if max >= 2 {
        assert(truncated(text, max).drop_last() =~= text.take(max - 1));
        assert(fitted(text, max).take(max - 2) =~= text.take(max - 2));
    }
}

/// The order by name holds every row once; a name never comes before one that is its
/// start or has a lesser character where the two first differ.
pub proof fn law_name_order(order: Seq<usize>, rows: Seq<FunctionStat>, i: int, j: int)
    requires
        ordered_by_name(order, rows),
        0 <= i < j < order.len(),
        rows[order[i] as int].key@ != rows[order[j] as int].key@,
    ensures
        exists|p: int|
            {
                &&& 0 <= p < rows[order[j] as int].key@.len()
                &&& p <= rows[order[i] as int].key@.len()
                &&& #[trigger] rows[order[i] as int].key@.take(p) == rows[order[j] as int].key@.take(
                    p,
                )
                &&& p < rows[order[i] as int].key@.len() ==> (rows[order[i] as int].key@[p] as int)
                    < (rows[order[j] as int].key@[p] as int)
            },
        forall|k: usize| (k as int) < rows.len() ==> #[trigger] order.contains(k),
        order.len() == rows.len(),
{
    assert(name_before(rows, order[i] as int, order[j] as int));
    let a = rows[order[i] as int].key@;
    let b = rows[order[j] as int].key@;
    let p = law_text_before(a, b);
    assert(a.take(p) == b.take(p));
}

/// Lines that are put one after the other are all there, in order.
pub proof fn law_stacked(lines: Seq<Seq<char>>, n: int)
    requires
        0 <= n <= lines.len(),
    ensures
        stacked(lines, n) == lines.take(n).fold_left(
            Seq::<char>::empty(),
            |all: Seq<char>, line: Seq<char>| all + line,
        ),
    decreases n,
{
    if n > 0 {
        law_stacked(lines, n - 1);
        assert(lines.take(n).drop_last() =~= lines.take(n - 1));
    }
}

/// The columns of the function table: where their contents fit, the share ends at the
/// seventh character, the exclusive time at the nineteenth, the inclusive time at the
/// thirty-second, and the name, cut where it is too long, starts after two more.
pub proof fn law_top_columns(
    self_pct: Seq<char>,
    self_time: Seq<char>,
    total_time: Seq<char>,
    key: Seq<char>,
)
    requires
        self_pct.len() <= 5,
        self_time.len() <= 10,
        total_time.len() <= 11,
    ensures
        ({
            let line = top_line_spec(self_pct, self_time, total_time, key);
            let n = if key.len() <= 70 {
                key.len() as int
            } else {
                70
            };
            &&& line.len() == 34 + n + 1
            &&& line.subrange(7 - self_pct.len(), 7) == self_pct
            &&& line.subrange(19 - self_time.len(), 19) == self_time
            &&& line.subrange(32 - total_time.len(), 32) == total_time
            &&& key.len() <= 70 ==> line.subrange(34, 34 + n) == key
            &&& key.len() > 70 ==> line.subrange(34, 103) == key.take(69) && line[103] == '…'
            &&& line.last() == '\n'
        }),
{
    reveal_strlit("  ");
    reveal_strlit("\n");
    let line = top_line_spec(self_pct, self_time, total_time, key);
    assert(line.subrange(7 - self_pct.len(), 7) =~= self_pct);
    assert(line.subrange(19 - self_time.len(), 19) =~= self_time);
    assert(line.subrange(32 - total_time.len(), 32) =~= total_time);
    if key.len() <= 70 {
        assert(line.subrange(34, 34 + key.len() as int) =~= key);
    } else {
        assert(line.subrange(34, 103) =~= key.take(69));
    }
}

/// The header of a thread starts with its place, counted from one, and the number of
/// threads, then its label, its counts, its timing and the view. It speaks of the font and the column where the table is
/// shown, and nowhere else.
pub proof fn law_thread_header(h: ThreadHeader)
    ensures
        ({
            let start = "Thread "@ + decimal((h.cursor + 1) as nat) + "/"@ + decimal(
                h.count as nat,
            ) + ": "@ + h.label@ + "  ("@ + decimal(h.samples as nat) + " samples, "@ + decimal(
                h.events as nat,
            ) + " events, depth "@ + decimal(h.depth as nat) + ")\n"@ + h.timing@ + "\nview: "@
                + h.mode.label_spec();
            &&& thread_header_spec(h).len() > start.len()
            &&& thread_header_spec(h).take(start.len() as int) == start
        }),
        !(h.mode is Top) ==> sort_hint(h).len() == 0,
        h.mode is Top ==> sort_hint(h) == "  ·  +/- font ("@ + h.font@ + "px)  ·  S sort ("@
            + h.sort.label_spec() + ")"@,
{
    let start = "Thread "@ + decimal((h.cursor + 1) as nat) + "/"@ + decimal(h.count as nat)
        + ": "@ + h.label@ + "  ("@ + decimal(h.samples as nat) + " samples, "@ + decimal(
        h.events as nat,
    ) + " events, depth "@ + decimal(h.depth as nat) + ")\n"@ + h.timing@ + "\nview: "@
        + h.mode.label_spec();
    reveal_strlit("  ·  Tab switch view");
    assert(thread_header_spec(h).take(start.len() as int) =~= start);
}

/// The panel of a function starts with its name, and has its exclusive figures before its
/// inclusive ones.
pub proof fn law_info(row: FunctionStat, times: ShownTimes)
    ensures
        ({
            let own = row.key@ + "\nself:  "@ + times.self_time@ + " ("@ + times.self_pct@ + "%, "@
                + decimal(row.self_events as nat) + " ev)"@;
            let all = "\ntotal: "@ + times.total_time@ + " ("@ + times.total_pct@ + "%, "@
                + decimal(row.total_events as nat) + " ev)"@;
            info_spec(row, times) == own + all
        }),
{
    reveal_strlit(" ev)");
    reveal_strlit("\ntotal: ");
    reveal_strlit(" ev)\ntotal: ");
    assert(" ev)\ntotal: "@ =~= " ev)"@ + "\ntotal: "@);
    let own = row.key@ + "\nself:  "@ + times.self_time@ + " ("@ + times.self_pct@ + "%, "@
        + decimal(row.self_events as nat) + " ev)"@;
    let all = "\ntotal: "@ + times.total_time@ + " ("@ + times.total_pct@ + "%, "@ + decimal(
        row.total_events as nat,
    ) + " ev)"@;
    assert(info_spec(row, times) =~= own + all);
}

/// Outside the overview, or without threads, input changes nothing. A click selects the
/// clicked thread and opens it, whatever keys are pressed; a key that opens does so with
/// the thread that the arrows lead to; else the arrows move the selection only.
pub proof fn law_overview_input(
    cursor: int,
    count: int,
    mode: ViewMode,
    cols: int,
    input: OverviewInput,
)
    ensures
        !(mode is Overview) || count == 0 ==> overview_after(cursor, count, mode, cols, input) == (
            cursor,
            mode,
        ),
        mode is Overview && count > 0 && input.clicked is Some ==> overview_after(
            cursor,
            count,
            mode,
            cols,
            input,
        ) == (input.clicked->0 as int, ViewMode::FlameChart),
        mode is Overview && count > 0 && input.clicked is None ==> {
            let (at, shown) = overview_after(cursor, count, mode, cols, input);
            &&& at == moved(cursor, count, cols, input)
            &&& input.open ==> shown is FlameChart
            &&& !input.open ==> shown is Overview
        },
{
}

/// A brick under the cursor is highlighted as such, the others of its function as its
/// group, and no other brick.
pub proof fn law_highlight(hovered: bool, other: Option<Seq<char>>, key: Seq<char>)
    ensures
        highlighted(true, other, key) is Hovered,
        highlighted(false, None, key) is Plain,
        highlighted(false, Some(key), key) is Group,
        other is Some && other->0 != key ==> highlighted(false, other, key) is Plain,
        highlighted(hovered, other, key) is Hovered <==> hovered,
{
}

/// What the views and the columns are called.
pub proof fn law_names_of_views(mode: ViewMode, sort: TopSort)
    ensures
        mode is Overview ==> mode.label_spec() == "overview (all threads)"@,
        mode is FlameChart ==> mode.label_spec() == "flame chart (time)"@,
        mode is FlameGraph ==> mode.label_spec() == "flame graph (left-heavy)"@,
        mode is Top ==> mode.label_spec() == "top functions"@,
        sort is SelfTime ==> sort.label_spec() == "self time"@,
        sort is TotalTime ==> sort.label_spec() == "total time"@,
        sort is Name ==> sort.label_spec() == "name"@,
{
}

} // verus!
