//! Parser for the text output of `perf script`.
//!
//! The output is a sequence of records separated by blank lines. Each record
//! starts with a header line that describes the sample, followed by one indented
//! line per stack frame, innermost frame first:
//!
//! ```text
//! rg   64477/64477   26795.734316:          1 cpu/cycles/Pu:
//!     ffffffff94f14db5 [unknown] ([unknown])
//!     7f3988eb7440 _start+0x0 (/usr/lib64/ld-linux-x86-64.so.2)
//! ```

use crate::parsers::Options;
use crate::profile::{
    find_key, frames_of, id_at, ids_in, interned, interned_all, lemma_interned, lemma_interned_all,
    lemma_ok_at, lemma_recorded_at, opt_text, profile_of, sample_at, threads_at, threads_of,
    with_frames, Frame, FrameId, FrameModel, Profile, RecordModel, Sample, ThreadBuilder, ThreadModel,
};
use crate::recording::{law_samples_are_records, law_threads_are_ok};
use crate::text::{
    chars_of, decimal, find_char, find_space, first_char, first_space, is_at, is_digit_text,
    is_float, is_float_text, is_hex_digit, is_last_at, is_space, is_whitespace, join, joined,
    last_occurrence, law_decimal, law_decimal_reads_back, law_float_text, law_parsed_number,
    law_trim, lemma_first_char, lemma_first_space, lemma_trim_of_trim_end, lines, lines_spec,
    occurs_at, occurs_in, parse_u64, parsed_number, positional, rfind, split_whitespace, string_of,
    trim, trim_end, trim_end_spec, trim_spec, trim_start_spec, views, words,
};
use vstd::hash_map::StringHashMap;
use vstd::prelude::*;
use vstd::slice::slice_subrange;

verus! {

// ---------------------------------------------------------------------------
// Frame lines
// ---------------------------------------------------------------------------

pub open spec fn all_hex(s: Seq<char>) -> bool {
    forall|i: int| 0 <= i < s.len() ==> is_hex_digit(#[trigger] s[i])
}

/// A symbol without a trailing `+0x<hex>`, where a name stands before it.
pub open spec fn stripped(symbol: Seq<char>) -> Seq<char> {
    match last_occurrence(symbol, seq!['+', '0', 'x']) {
        Some(i) => if i > 0 && all_hex(symbol.skip(i + 3)) {
            symbol.take(i)
        } else {
            symbol
        },
        None => symbol,
    }
}

/// A trimmed value; `None` where it is empty or the placeholder `[unknown]`.
pub open spec fn cleaned(value: Seq<char>) -> Option<Seq<char>> {
    let t = trim_spec(value);
    if t.len() == 0 || t == "[unknown]"@ {
        None
    } else {
        Some(t)
    }
}

/// `s` without the closing parentheses at its end.
pub open spec fn without_parens(s: Seq<char>) -> Seq<char>
    decreases s.len(),
{
    if s.len() > 0 && s.last() == ')' {
        without_parens(s.drop_last())
    } else {
        s
    }
}

/// An address without the `0x` at its start, however often it stands there.
pub open spec fn without_0x(s: Seq<char>) -> Seq<char>
    decreases s.len(),
{
    if s.len() >= 2 && s[0] == '0' && s[1] == 'x' {
        without_0x(s.skip(2))
    } else {
        s
    }
}

/// What stands between the address and the shared object, and the shared object:
/// the last group that an opening parenthesis after a space starts.
pub open spec fn symbol_and_dso(rest: Seq<char>) -> (Seq<char>, Option<Seq<char>>) {
    match last_occurrence(rest, seq![' ', '(']) {
        Some(i) => (trim_spec(rest.take(i)), Some(without_parens(rest.skip(i + 2)))),
        None => (trim_spec(rest), None),
    }
}

/// The frame that an indented line describes: an address, white space, a symbol
/// and a shared object in parentheses. `None` where nothing follows the address.
pub open spec fn frame_of(line: Seq<char>, options: Options) -> Option<FrameModel> {
    let t = trim_spec(line);
    let p = first_space(t);
    if p < t.len() {
        let (symbol, dso) = symbol_and_dso(t.skip(p + 1));
        Some(
            FrameModel {
                ip: seq!['0', 'x'] + without_0x(t.take(p)),
                symbol: match cleaned(symbol) {
                    Some(s) => Some(
                        if options.include_offset {
                            s
                        } else {
                            stripped(s)
                        },
                    ),
                    None => None,
                },
                dso: match dso {
                    Some(d) => cleaned(d),
                    None => None,
                },
            },
        )
    } else {
        None
    }
}

/// Drops the trailing `+0x<hex>` instruction offset that `perf script` appends to
/// a symbol.
pub fn strip_offset(symbol: &[char]) -> (r: &[char])
    ensures
        r@ == stripped(symbol@),
{
    let pat: [char; 3] = ['+', '0', 'x'];
    assert(pat@ =~= seq!['+', '0', 'x']);
    let n = symbol.len();
    match rfind(symbol, &pat) {
        Some(i) => {
            if i == 0 {
                return symbol;
            }
            let ghost offset = symbol@.skip(i + 3);
            let mut k: usize = i + 3;
            while k < n
                invariant
                    i + 3 <= k <= n == symbol@.len(),
                    last_occurrence(symbol@, seq!['+', '0', 'x']) == Some(i as int),
                    offset == symbol@.skip(i + 3),
                    forall|j: int| 0 <= j < k - (i + 3) ==> is_hex_digit(#[trigger] offset[j]),
                decreases n - k,
            {
                let c = symbol[k];
                if !(('0' <= c && c <= '9') || ('a' <= c && c <= 'f') || ('A' <= c && c <= 'F')) {
                    assert(!is_hex_digit(offset[k - (i + 3)]));
                    return symbol;
                }
                k += 1;
            }
            assert(symbol@.subrange(0, i as int) =~= symbol@.take(i as int));
            slice_subrange(symbol, 0, i)
        },
        None => symbol,
    }
}

/// Drops the placeholder that perf prints when information is missing.
pub fn clean(value: &[char]) -> (r: Option<&[char]>)
    ensures
        (match r {
            Some(t) => cleaned(value@) == Some(t@),
            None => cleaned(value@) is None,
        }),
{
    let t = trim(value);
    let unknown = chars_of("[unknown]");
    if t.len() == 0 {
        return None;
    }
    if t.len() == unknown.len() && is_at(t, unknown.as_slice(), 0) {
        assert(t@.subrange(0, t@.len() as int) =~= t@);
        return None;
    }
    proof {
        if t@ == "[unknown]"@ {
            assert(t@.subrange(0, t@.len() as int) =~= t@);
        }
    }
    Some(t)
}

fn trim_parens(s: &[char]) -> (r: &[char])
    ensures
        r@ == without_parens(s@),
{
    let mut n = s.len();
    assert(s@.take(n as int) =~= s@);
    while n > 0 && s[n - 1] == ')'
        invariant
            n <= s@.len(),
            without_parens(s@) == without_parens(s@.take(n as int)),
        decreases n,
    {
        assert(s@.take(n as int).drop_last() =~= s@.take(n as int - 1));
        n -= 1;
    }
    assert(s@.take(n as int) =~= s@.subrange(0, n as int));
    slice_subrange(s, 0, n)
}

fn trim_0x(s: &[char]) -> (r: &[char])
    ensures
        r@ == without_0x(s@),
{
    let n = s.len();
    let mut i: usize = 0;
    assert(s@.skip(0) =~= s@);
    while i < n && n - i >= 2 && s[i] == '0' && s[i + 1] == 'x'
        invariant
            i <= n == s@.len(),
            without_0x(s@) == without_0x(s@.skip(i as int)),
        decreases n - i,
    {
        assert(s@.skip(i as int).skip(2) =~= s@.skip(i + 2));
        i += 2;
    }
    assert(s@.skip(i as int) =~= s@.subrange(i as int, n as int));
    slice_subrange(s, i, n)
}

/// Parses an indented stack line such as
/// `7f3988eb7440 _start+0x0 (/usr/lib64/ld-linux-x86-64.so.2)`.
pub fn parse_frame_line(line: &str, options: Options) -> (r: Option<Frame>)
    ensures
        (match r {
            Some(f) => frame_of(line@, options) == Some(f@),
            None => frame_of(line@, options) is None,
        }),
{
    let chars = chars_of(line);
    let t = trim(chars.as_slice());
    let n = t.len();
    let p = find_space(t);
    if p >= n {
        return None;
    }
    assert(t@.subrange(0, p as int) =~= t@.take(p as int));
    assert(t@.subrange(p + 1, n as int) =~= t@.skip(p + 1));
    let addr = slice_subrange(t, 0, p);
    let rest = slice_subrange(t, p + 1, n);

    let pat: [char; 2] = [' ', '('];
    assert(pat@ =~= seq![' ', '(']);
    let (symbol_part, dso): (&[char], Option<String>) = match rfind(rest, &pat) {
        Some(i) => {
            let m = rest.len();
            assert(rest@.subrange(0, i as int) =~= rest@.take(i as int));
            assert(rest@.subrange(i + 2, m as int) =~= rest@.skip(i + 2));
            let dso_part = trim_parens(slice_subrange(rest, i + 2, m));
            let dso = match clean(dso_part) {
                Some(d) => Some(string_of(d)),
                None => None,
            };
            (trim(slice_subrange(rest, 0, i)), dso)
        },
        None => (trim(rest), None),
    };

    let symbol = match clean(symbol_part) {
        Some(s) => {
            if options.include_offset {
                Some(string_of(s))
            } else {
                Some(string_of(strip_offset(s)))
            }
        },
        None => None,
    };

    let mut ip = String::new();
    ip.push('0');
    ip.push('x');
    let digits = string_of(trim_0x(addr));
    ip.append(digits.as_str());
    assert(ip@ =~= seq!['0', 'x'] + without_0x(t@.take(p as int)));
    Some(Frame { ip, symbol, dso })
}

// ---------------------------------------------------------------------------
// Header lines
// ---------------------------------------------------------------------------

/// The two numbers of a token such as `64477/64478`.
pub open spec fn pid_tid_of(token: Seq<char>) -> Option<(u64, u64)> {
    let p = first_char(token, '/');
    if p < token.len() {
        match (
            parsed_number(token.take(p), u64::MAX as nat),
            parsed_number(token.skip(p + 1), u64::MAX as nat),
        ) {
            (Some(pid), Some(tid)) => Some((pid as u64, tid as u64)),
            _ => None,
        }
    } else {
        None
    }
}

/// Index of the first token with two numbers, or the number of tokens.
pub open spec fn first_pid_tid(tokens: Seq<Seq<char>>) -> int
    decreases tokens.len(),
{
    if tokens.len() == 0 || pid_tid_of(tokens[0]) is Some {
        0
    } else {
        1 + first_pid_tid(tokens.skip(1))
    }
}

/// A number of seconds and a colon, such as `26795.734316:`.
pub open spec fn is_seconds(token: Seq<char>) -> bool {
    token.len() > 0 && token.last() == ':' && is_float_text(token.drop_last())
}

/// Index of the first token that is a number of seconds, or the number of tokens.
pub open spec fn first_seconds(tokens: Seq<Seq<char>>) -> int
    decreases tokens.len(),
{
    if tokens.len() == 0 || is_seconds(tokens[0]) {
        0
    } else {
        1 + first_seconds(tokens.skip(1))
    }
}

/// The period that a token writes: a positive number, or 1 where it writes none.
pub open spec fn period_of(token: Seq<char>) -> u64 {
    match parsed_number(token, u64::MAX as nat) {
        Some(n) => if n == 0 {
            1
        } else {
            n as u64
        },
        None => 1,
    }
}

/// What a record's header says: the command, the ids, the time in seconds as it
/// is written, and the period.
#[verifier::ext_equal]
pub struct HeaderModel {
    pub comm: Option<Seq<char>>,
    pub pid: u64,
    pub tid: u64,
    pub seconds: Seq<char>,
    pub weight: u64,
}

/// The header of the words `tokens`: the first that holds two numbers gives the
/// ids, the words before it the command (which may hold spaces), the first number
/// of seconds after it the time, and the word after that the period.
pub open spec fn header_of(tokens: Seq<Seq<char>>) -> Option<HeaderModel> {
    let p = first_pid_tid(tokens);
    if p < tokens.len() {
        let s = p + 1 + first_seconds(tokens.skip(p + 1));
        if s < tokens.len() {
            Some(
                HeaderModel {
                    comm: if p == 0 {
                        None
                    } else {
                        Some(joined(tokens.take(p), seq![' ']))
                    },
                    pid: pid_tid_of(tokens[p]).unwrap().0,
                    tid: pid_tid_of(tokens[p]).unwrap().1,
                    seconds: tokens[s].drop_last(),
                    weight: if s + 1 < tokens.len() {
                        period_of(tokens[s + 1])
                    } else {
                        1
                    },
                },
            )
        } else {
            None
        }
    } else {
        None
    }
}

/// Header fields of a `perf script` record.
pub struct Header {
    /// The command's name.
    pub comm: Option<String>,
    pub pid: u64,
    pub tid: u64,
    /// The time in seconds, as the header writes it.
    pub seconds: String,
    /// The sample's period.
    pub weight: u64,
}

impl View for Header {
    type V = HeaderModel;

    open spec fn view(&self) -> HeaderModel {
        HeaderModel {
            comm: opt_text(self.comm),
            pid: self.pid,
            tid: self.tid,
            seconds: self.seconds@,
            weight: self.weight,
        }
    }
}

/// Splits a token such as `64477/64478` into its two numbers.
pub fn split_pid_tid(token: &str) -> (r: Option<(u64, u64)>)
    ensures
        r == pid_tid_of(token@),
{
    let chars = chars_of(token);
    let t = chars.as_slice();
    let n = t.len();
    let p = find_char(t, '/');
    if p >= n {
        return None;
    }
    assert(t@.subrange(0, p as int) =~= t@.take(p as int));
    assert(t@.subrange(p + 1, n as int) =~= t@.skip(p + 1));
    match (parse_u64(slice_subrange(t, 0, p)), parse_u64(slice_subrange(t, p + 1, n))) {
        (Some(pid), Some(tid)) => Some((pid, tid)),
        _ => None,
    }
}

/// Whether a token holds two numbers.
pub fn is_pid_tid(token: &str) -> (r: bool)
    ensures
        r == (pid_tid_of(token@) is Some),
{
    split_pid_tid(token).is_some()
}

/// The seconds that a token writes, if it is a number of seconds and a colon.
fn seconds_text(token: &str) -> (r: Option<String>)
    ensures
        (match r {
            Some(s) => is_seconds(token@) && s@ == token@.drop_last(),
            None => !is_seconds(token@),
        }),
{
    let chars = chars_of(token);
    let n = chars.len();
    if n == 0 || chars[n - 1] != ':' {
        return None;
    }
    assert(chars@.subrange(0, n - 1) =~= chars@.drop_last());
    let number = slice_subrange(chars.as_slice(), 0, n - 1);
    if is_float(number) {
        Some(string_of(number))
    } else {
        None
    }
}

/// Parses a record header such as `rg   64477/64477   26795.734316:   1 cpu/...`.
pub fn parse_header_line(line: &str) -> (r: Option<Header>)
    ensures
        (match r {
            Some(h) => header_of(words(line@)) == Some(h@),
            None => header_of(words(line@)) is None,
        }),
{
    let chars = chars_of(line);
    let tokens = split_whitespace(chars.as_slice());
    let ghost all = words(line@);
    let n = tokens.len();
    assert(all.len() == n);
    assert(all.skip(0) =~= all);

    let mut p: usize = 0;
    while p < n && !is_pid_tid(tokens[p].as_str())
        invariant
            p <= n == tokens@.len(),
            all == views(tokens@),
            first_pid_tid(all) == p + first_pid_tid(all.skip(p as int)),
        decreases n - p,
    {
        assert(all.skip(p as int)[0] == tokens@[p as int]@);
        assert(all.skip(p as int).skip(1) =~= all.skip(p + 1));
        p += 1;
    }
    if p >= n {
        return None;
    }
    assert(all.skip(p as int)[0] == tokens@[p as int]@);
    assert(all[p as int] == tokens@[p as int]@);
    let (pid, tid) = match split_pid_tid(tokens[p].as_str()) {
        Some(pair) => pair,
        None => {
            return None;
        },
    };

    let ghost after = all.skip(p + 1);
    assert(after.skip(0) =~= after);
    let mut s: usize = p + 1;
    let mut seconds: Option<String> = None;
    while s < n && seconds.is_none()
        invariant
            p < s <= n == tokens@.len(),
            all == views(tokens@),
            after == all.skip(p + 1),
            (match seconds {
                Some(text) => p + 1 < s && s - (p + 2) == first_seconds(after) && text@ == all[s
                    - 1].drop_last(),
                None => first_seconds(after) == s - (p + 1) + first_seconds(
                    after.skip(s - (p + 1)),
                ),
            }),
        decreases n - s,
    {
        let ghost k = s - (p + 1);
        assert(after.skip(k)[0] == tokens@[s as int]@);
        assert(after.skip(k).skip(1) =~= after.skip(k + 1));
        seconds = seconds_text(tokens[s].as_str());
        s += 1;
    }
    let seconds = match seconds {
        Some(text) => text,
        None => {
            assert(first_seconds(after) == after.len());
            return None;
        },
    };

    let weight: u64 = if s < n {
        assert(all[s as int] == tokens@[s as int]@);
        match parse_u64(chars_of(tokens[s].as_str()).as_slice()) {
            Some(v) => {
                if v == 0 {
                    1
                } else {
                    v
                }
            },
            None => 1,
        }
    } else {
        1
    };

    let comm = if p == 0 {
        None
    } else {
        let mut sep = String::new();
        sep.push(' ');
        assert(sep@ =~= seq![' ']);
        Some(join(&tokens, p, sep.as_str()))
    };
    Some(Header { comm, pid, tid, seconds, weight })
}

// ---------------------------------------------------------------------------
// Records
// ---------------------------------------------------------------------------

/// A line of white space only separates records.
pub open spec fn is_blank(line: Seq<char>) -> bool {
    trim_spec(line).len() == 0
}

/// Frame lines are indented, header lines are not.
pub open spec fn is_indented(line: Seq<char>) -> bool {
    line.len() > 0 && is_space(line[0])
}

/// The records that a prefix of the lines completed, and the one that its last
/// lines belong to, if any.
#[verifier::ext_equal]
pub struct ScriptState {
    pub done: Seq<RecordModel<Seq<char>>>,
    pub current: Option<RecordModel<Seq<char>>>,
}

/// The current record is complete; one without frames is dropped.
pub open spec fn flushed(state: ScriptState) -> ScriptState {
    ScriptState {
        done: match state.current {
            Some(r) => if r.stack.len() > 0 {
                state.done.push(r)
            } else {
                state.done
            },
            None => state.done,
        },
        current: None,
    }
}

/// The record that a header line starts.
pub open spec fn record_of(line: Seq<char>) -> Option<RecordModel<Seq<char>>> {
    match header_of(words(line)) {
        Some(h) => Some(
            RecordModel {
                pid: h.pid,
                tid: h.tid,
                name: h.comm,
                timestamp_ns: h.seconds,
                weight: h.weight,
                stack: Seq::empty(),
            },
        ),
        None => None,
    }
}

/// The record with the frame of an indented line added, where the line has one.
pub open spec fn with_frame(
    record: Option<RecordModel<Seq<char>>>,
    line: Seq<char>,
    options: Options,
) -> Option<RecordModel<Seq<char>>> {
    match (record, frame_of(line, options)) {
        (Some(r), Some(f)) => Some(RecordModel { stack: r.stack.push(f), ..r }),
        _ => record,
    }
}

/// One more line: a blank line ends the record, an indented line adds a frame to
/// it, and any other line ends it and starts the next.
pub open spec fn step(state: ScriptState, line: Seq<char>, options: Options) -> ScriptState {
    if is_blank(line) {
        flushed(state)
    } else if is_indented(line) {
        ScriptState { done: state.done, current: with_frame(state.current, line, options) }
    } else {
        ScriptState { done: flushed(state).done, current: record_of(line) }
    }
}

/// The state after `lines`.
pub open spec fn state_after(lines: Seq<Seq<char>>, options: Options) -> ScriptState
    decreases lines.len(),
{
    if lines.len() == 0 {
        ScriptState { done: Seq::empty(), current: None }
    } else {
        step(state_after(lines.drop_last(), options), lines.last(), options)
    }
}

/// The records of `lines`, each with its time in seconds as it is written.
pub open spec fn records_of(lines: Seq<Seq<char>>, options: Options) -> Seq<
    RecordModel<Seq<char>>,
> {
    flushed(state_after(lines, options)).done
}

/// The profile of `lines`.
pub open spec fn script_profile(lines: Seq<Seq<char>>, options: Options) -> Seq<
    ThreadModel<Seq<char>>,
> {
    profile_of(records_of(lines, options))
}

/// Threads whose times are texts, by what the texts hold.
pub open spec fn with_text_times(threads: Seq<ThreadModel<String>>) -> Seq<ThreadModel<Seq<char>>> {
    threads_at(threads, |s: String| s@)
}

// ---------------------------------------------------------------------------
// The parser
// ---------------------------------------------------------------------------

/// A record whose frames are being read.
struct Record {
    header: Header,
    stack: Vec<FrameId>,
}

/// A parser that is fed line by line, so that a file never has to be held in
/// memory as one string.
pub struct ScriptParser {
    options: Options,
    builder: ThreadBuilder<String>,
    current: Option<Record>,
    /// The ids of the frame lines seen so far: a line that was seen before is not
    /// parsed again.
    frame_ids: StringHashMap<FrameId>,
    fed: Ghost<Seq<Seq<char>>>,
}

/// The frames of the current record.
spec fn current_stack(state: ScriptState) -> Seq<FrameModel> {
    match state.current {
        Some(r) => r.stack,
        None => Seq::empty(),
    }
}

/// `id` is that of the frame of a line.
spec fn is_line_id(
    id: FrameId,
    line: Seq<char>,
    frames: Seq<FrameModel>,
    options: Options,
) -> bool {
    match frame_of(line, options) {
        Some(f) => find_key(frames, f.key()) < frames.len() && id == id_at(
            find_key(frames, f.key()),
        ),
        None => false,
    }
}

/// The ids of the lines seen so far are those of their frames.
spec fn cache_ok(
    ids: Map<Seq<char>, FrameId>,
    frames: Seq<FrameModel>,
    options: Options,
) -> bool {
    forall|k: Seq<char>| #[trigger]
        ids.contains_key(k) ==> is_line_id(ids[k], k, frames, options)
}

impl ScriptParser {
    /// The lines fed so far.
    pub closed spec fn lines(&self) -> Seq<Seq<char>> {
        self.fed@
    }

    /// The options that the parser was made with.
    pub closed spec fn options(&self) -> Options {
        self.options
    }

    /// The parser is in the state that the lines fed to it lead to.
    pub closed spec fn wf(&self) -> bool {
        self.matches(state_after(self.fed@, self.options))
    }

    closed spec fn matches(&self, state: ScriptState) -> bool {
        &&& self.builder.wf()
        &&& self.builder.frames() == interned_all(frames_of(state.done), current_stack(state))
        &&& with_text_times(self.builder.threads()) == threads_of(state.done)
        &&& match (self.current, state.current) {
            (Some(r), Some(m)) => {
                &&& r.header.pid == m.pid
                &&& r.header.tid == m.tid
                &&& opt_text(r.header.comm) == m.name
                &&& r.header.seconds@ == m.timestamp_ns
                &&& r.header.weight == m.weight
                &&& r.stack@ == ids_in(self.builder.frames(), m.stack)
            },
            (None, None) => true,
            _ => false,
        }
        &&& cache_ok(self.frame_ids@, self.builder.frames(), self.options)
    }

    /// A parser that was fed nothing.
    pub fn new(options: Options) -> (r: Self)
        ensures
            r.wf(),
            r.lines() == Seq::<Seq<char>>::empty(),
            r.options() == options,
    {
        let r = ScriptParser {
            options,
            builder: ThreadBuilder::default(),
            current: None,
            frame_ids: StringHashMap::new(),
            fed: Ghost(Seq::empty()),
        };
        assert(with_text_times(r.builder.threads()) =~= threads_of(
            state_after(Seq::empty(), options).done,
        ));
        r
    }

    /// Ends the current record: hands it to the builder unless it has no frames.
    fn flush(&mut self, Ghost(state): Ghost<ScriptState>)
        requires
            old(self).matches(state),
        ensures
            final(self).matches(flushed(state)),
            final(self).current is None,
            final(self).options == old(self).options,
            final(self).fed == old(self).fed,
    {
        if let Some(record) = self.current.take() {
            let ghost m = state.current->0;
            let ghost frames = self.builder.frames();
            if record.stack.len() > 0 {
                let Record { header, stack } = record;
                let sample = Sample { timestamp_ns: header.seconds, stack, weight: header.weight };
                let ghost before = self.builder.threads();
                let ghost made = sample@;
                let ghost comm = header.comm;
                self.builder.push(header.pid, header.tid, header.comm, sample);
                proof {
                    let done = state.done.push(m);
                    assert(done.drop_last() =~= state.done);
                    assert(done.last() == m);
                    assert(frames_of(done) == frames);
                    lemma_recorded_at(
                        before,
                        |s: String| s@,
                        m.pid,
                        m.tid,
                        opt_text(comm),
                        made,
                    );
                    let seen = sample_at(made, |s: String| s@);
                    assert(seen == crate::profile::last_sample(done));
                    assert(with_text_times(self.builder.threads()) == threads_of(done));
                }
            } else {
                proof {
                    assert(m.stack.len() == 0);
                }
            }
        }
    }

    /// The id of the frame of an indented line, if the line has one.
    fn frame_id(&mut self, line: &str, Ghost(state): Ghost<ScriptState>) -> (r: Option<FrameId>)
        requires
            old(self).matches(state),
        ensures
            final(self).options == old(self).options,
            final(self).fed == old(self).fed,
            final(self).current == old(self).current,
            final(self).builder.wf(),
            final(self).builder.threads() == old(self).builder.threads(),
            (match frame_of(line@, old(self).options) {
                Some(f) => {
                    &&& final(self).builder.frames() == interned(old(self).builder.frames(), f)
                    &&& r == Some(id_at(find_key(old(self).builder.frames(), f.key())))
                },
                None => {
                    &&& final(self).builder.frames() == old(self).builder.frames()
                    &&& r is None
                },
            }),
            cache_ok(
                final(self).frame_ids@,
                final(self).builder.frames(),
                final(self).options,
            ),
    {
        let chars = chars_of(line);
        let key = string_of(trim_end(chars.as_slice()));
        proof {
            lemma_trim_of_trim_end(line@);
            assert(frame_of(key@, self.options) == frame_of(line@, self.options));
        }
        if let Some(id) = self.frame_ids.get(key.as_str()) {
            proof {
                assert(self.frame_ids@.contains_key(key@));
            }
            return Some(*id);
        }
        match parse_frame_line(line, self.options) {
            Some(frame) => {
                let ghost f = frame@;
                let ghost before = self.builder.frames();
                let id = self.builder.intern(frame);
                self.frame_ids.insert(key, id);
                proof {
                    let after = self.builder.frames();
                    assert forall|k: Seq<char>| #[trigger]
                        self.frame_ids@.contains_key(k) implies is_line_id(
                        self.frame_ids@[k],
                        k,
                        after,
                        self.options,
                    ) by {
                        if k == key@ {
                            lemma_interned(before, f, f.key());
                        } else {
                            assert(old(self).frame_ids@.contains_key(k));
                            lemma_interned(before, f, frame_of(k, self.options)->0.key());
                        }
                    }
                }
                Some(id)
            },
            None => None,
        }
    }

    /// Feeds one line, without its line ending.
    pub fn feed_line(&mut self, line: &str)
        requires
            old(self).wf(),
        ensures
            final(self).wf(),
            final(self).lines() == old(self).lines().push(line@),
            final(self).options() == old(self).options(),
    {
        let ghost state = state_after(self.fed@, self.options);
        let ghost after = self.fed@.push(line@);
        proof {
            assert(after.drop_last() =~= self.fed@);
            assert(state_after(after, self.options) == step(state, line@, self.options));
        }
        let chars = chars_of(line);
        if trim(chars.as_slice()).len() == 0 {
            self.flush(Ghost(state));
        } else if is_whitespace(chars[0]) {
            if self.current.is_some() {
                let ghost before = self.builder.frames();
                let id = self.frame_id(line, Ghost(state));
                if let Some(id) = id {
                    if let Some(mut record) = self.current.take() {
                        let ghost ids = record.stack@;
                        record.stack.push(id);
                        proof {
                            let m = state.current->0;
                            let f = frame_of(line@, self.options)->0;
                            let now = self.builder.frames();
                            let stack = m.stack.push(f);
                            assert(stack.drop_last() =~= m.stack);
                            assert(now == interned_all(frames_of(state.done), stack));
                            lemma_interned(before, f, f.key());
                            lemma_interned_all(frames_of(state.done), m.stack);
                            assert(record.stack@ =~= ids_in(now, stack)) by {
                                assert forall|j: int| 0 <= j < m.stack.len() implies ids[j]
                                    == id_at(find_key(now, (#[trigger] m.stack[j]).key())) by {
                                    lemma_interned(before, f, m.stack[j].key());
                                }
                            }
                        }
                        self.current = Some(record);
                    }
                }
            }
        } else {
            self.flush(Ghost(state));
            match parse_header_line(line) {
                Some(header) => {
                    let record = Record { header, stack: Vec::new() };
                    self.current = Some(record);
                    proof {
                        let m = record_of(line@)->0;
                        assert(record.stack@ =~= ids_in(self.builder.frames(), m.stack));
                    }
                },
                None => {
                    self.current = None;
                },
            }
        }
        self.fed = Ghost(after);
    }

    /// The profile of the lines fed.
    pub fn finish(self) -> (r: Profile<String>)
        requires
            self.wf(),
        ensures
            with_text_times(r@) == script_profile(self.lines(), self.options()),
            forall|t: int| 0 <= t < r@.len() ==> (#[trigger] r@[t]).ok(),
    {
        let mut parser = self;
        let ghost state = state_after(self.fed@, self.options);
        parser.flush(Ghost(state));
        let ghost threads = parser.builder.threads();
        let ghost frames = parser.builder.frames();
        let r = parser.builder.finish();
        proof {
            let records = flushed(state).done;
            assert(frames == frames_of(records));
            assert(with_text_times(r@) =~= with_frames(with_text_times(threads), frames));
            assert forall|t: int| 0 <= t < r@.len() implies (#[trigger] r@[t]).ok() by {
                law_threads_are_ok(records, t);
                lemma_ok_at(r@[t], |s: String| s@);
                assert(with_text_times(r@)[t] == profile_of(records)[t]);
            }
        }
        r
    }
}

/// Parses `perf script` text. The samples' times are the seconds as written.
pub fn parse_str(input: &str, options: Options) -> (r: Profile<String>)
    ensures
        with_text_times(r@) == script_profile(lines_spec(input@), options),
        forall|t: int| 0 <= t < r@.len() ==> (#[trigger] r@[t]).ok(),
{
    let chars = chars_of(input);
    let all = lines(chars.as_slice());
    let mut parser = ScriptParser::new(options);
    let n = all.len();
    for i in 0..n
        invariant
            n == all@.len(),
            parser.wf(),
            parser.options() == options,
            parser.lines() == views(all@).take(i as int),
    {
        parser.feed_line(all[i].as_str());
        assert(views(all@).take(i + 1) =~= views(all@).take(i as int).push(all@[i as int]@));
    }
    assert(views(all@).take(n as int) =~= views(all@));
    parser.finish()
}

// ---------------------------------------------------------------------------
// Laws of the format
// ---------------------------------------------------------------------------

/// An instruction offset is dropped from the name before it, so that all
/// occurrences of a function group together.
pub proof fn law_offsets_are_stripped(name: Seq<char>, offset: Seq<char>)
    requires
        name.len() > 0,
        all_hex(offset),
    ensures
        stripped(name + seq!['+', '0', 'x'] + offset) == name,
{
    let pat = seq!['+', '0', 'x'];
    let symbol = name + pat + offset;
    let at = name.len() as int;
    assert(symbol.subrange(at, at + 3) =~= pat);
    assert(occurs_at(symbol, pat, at));
    assert forall|j: int| at < j implies !occurs_at(symbol, pat, j) by {
        if occurs_at(symbol, pat, j) {
            assert(symbol.subrange(j, j + 3)[0] == '+');
            assert(symbol[j] == '+');
            if j >= at + 3 {
                assert(symbol[j] == offset[j - at - 3]);
                assert(is_hex_digit(offset[j - at - 3]));
            }
        }
    }
    lemma_last_occurrence(symbol, pat, at);
    assert(symbol.skip(at + 3) =~= offset);
    assert(symbol.take(at) =~= name);
}

/// The state after more lines, from any state.
spec fn state_from(state: ScriptState, lines: Seq<Seq<char>>, options: Options) -> ScriptState
    decreases lines.len(),
{
    if lines.len() == 0 {
        state
    } else {
        step(state_from(state, lines.drop_last(), options), lines.last(), options)
    }
}

proof fn lemma_state_from(a: Seq<Seq<char>>, b: Seq<Seq<char>>, options: Options)
    ensures
        state_after(a + b, options) == state_from(state_after(a, options), b, options),
    decreases b.len(),
{
    if b.len() == 0 {
        assert(a + b =~= a);
    } else {
        assert((a + b).drop_last() =~= a + b.drop_last());
        assert((a + b).last() == b.last());
        lemma_state_from(a, b.drop_last(), options);
    }
}

/// What was done before does not matter to what comes.
proof fn lemma_done_apart(
    done: Seq<RecordModel<Seq<char>>>,
    lines: Seq<Seq<char>>,
    options: Options,
)
    ensures
        state_from(ScriptState { done, current: None }, lines, options).current == state_after(
            lines,
            options,
        ).current,
        state_from(ScriptState { done, current: None }, lines, options).done == done + state_after(
            lines,
            options,
        ).done,
    decreases lines.len(),
{
    let start = ScriptState { done, current: None };
    if lines.len() == 0 {
        assert(done + state_after(lines, options).done =~= done);
    } else {
        lemma_done_apart(done, lines.drop_last(), options);
        let a = state_from(start, lines.drop_last(), options);
        let b = state_after(lines.drop_last(), options);
        assert(flushed(a).done =~= done + flushed(b).done);
    }
}

/// A blank line separates records: what stands before it and what stands after it
/// can be read apart.
pub proof fn law_blank_lines_separate(
    before: Seq<Seq<char>>,
    blank: Seq<char>,
    after: Seq<Seq<char>>,
    options: Options,
)
    requires
        is_blank(blank),
    ensures
        records_of(before.push(blank) + after, options) == records_of(before, options) + records_of(
            after,
            options,
        ),
{
    let head = before.push(blank);
    lemma_state_from(head, after, options);
    assert(head.drop_last() =~= before);
    let done = flushed(state_after(before, options)).done;
    assert(state_after(head, options) == ScriptState { done, current: None });
    lemma_done_apart(done, after, options);
    let a = state_after(head + after, options);
    let b = state_after(after, options);
    assert(flushed(a).done =~= done + flushed(b).done);
}

/// The period of a header is positive.
proof fn lemma_weight_positive(tokens: Seq<Seq<char>>)
    ensures
        match header_of(tokens) {
            Some(h) => h.weight >= 1,
            None => true,
        },
{
}

proof fn lemma_state_records(lines: Seq<Seq<char>>, options: Options)
    ensures
        forall|i: int|
            0 <= i < state_after(lines, options).done.len() ==> (#[trigger] state_after(
                lines,
                options,
            ).done[i]).stack.len() > 0 && state_after(lines, options).done[i].weight >= 1,
        match state_after(lines, options).current {
            Some(r) => r.weight >= 1,
            None => true,
        },
    decreases lines.len(),
{
    if lines.len() > 0 {
        lemma_state_records(lines.drop_last(), options);
        lemma_weight_positive(words(lines.last()));
    }
}

/// Every record has a stack, and counts as at least one event.
pub proof fn law_records_have_events(lines: Seq<Seq<char>>, options: Options, i: int)
    requires
        0 <= i < records_of(lines, options).len(),
    ensures
        records_of(lines, options)[i].stack.len() > 0,
        records_of(lines, options)[i].weight >= 1,
{
    lemma_state_records(lines, options);
}

/// In a profile read from `perf script` every sample has a stack and counts as at
/// least one event.
pub proof fn law_script_samples_have_events(
    lines: Seq<Seq<char>>,
    options: Options,
    t: int,
    k: int,
)
    requires
        0 <= t < script_profile(lines, options).len(),
        0 <= k < script_profile(lines, options)[t].samples.len(),
    ensures
        script_profile(lines, options)[t].samples[k].stack.len() > 0,
        script_profile(lines, options)[t].samples[k].weight >= 1,
{
    let i = law_samples_are_records(records_of(lines, options), t, k);
    law_records_have_events(lines, options, i);
}

// ---------------------------------------------------------------------------
// What is written reads back
// ---------------------------------------------------------------------------

/// No character of the token is `c`.
pub open spec fn lacks(token: Seq<char>, c: char) -> bool {
    forall|i: int| 0 <= i < token.len() ==> #[trigger] token[i] != c
}

/// The period is the number that its token writes, at least one. A token that writes no
/// number that fits counts as one event.
pub proof fn law_period(token: Seq<char>, n: nat)
    ensures
        1 <= n <= u64::MAX ==> period_of(decimal(n)) == n,
        period_of(decimal(0)) == 1,
        is_digit_text(token) && 1 <= positional(token, 10) <= u64::MAX ==> period_of(token)
            == positional(token, 10),
        is_digit_text(token) && positional(token, 10) > u64::MAX ==> period_of(token) == 1,
        token.len() > 0 && !('0' <= token[0] <= '9') && token[0] != '+' ==> period_of(token) == 1,
{
    law_parsed_number(token, u64::MAX as nat);
    if n <= u64::MAX {
        law_decimal_reads_back(n, u64::MAX as nat);
    }
    law_decimal_reads_back(0, u64::MAX as nat);
}

proof fn lemma_slash_at(token: Seq<char>, n: int)
    requires
        0 <= n < token.len(),
        token[n] == '/',
        lacks(token.take(n), '/'),
    ensures
        first_char(token, '/') == n,
{
    lemma_first_char(token, '/');
    let p = first_char(token, '/');
    if p < n {
        assert(token.take(n)[p] == token[p]);
    }
    if n < p {
        assert(token[n] != '/');
    }
}

/// Two numbers with a slash between them are the ids; a token without a slash has none,
/// nor has one in which something else than a number stands before or after its first
/// slash.
pub proof fn law_ids(pid: u64, tid: u64, token: Seq<char>, n: int)
    ensures
        pid_tid_of(decimal(pid as nat).push('/') + decimal(tid as nat)) == Some((pid, tid)),
        lacks(token, '/') ==> pid_tid_of(token) is None,
        0 <= n < token.len() && token[n] == '/' && lacks(token.take(n), '/') && (parsed_number(
            token.take(n),
            u64::MAX as nat,
        ) is None || parsed_number(token.skip(n + 1), u64::MAX as nat) is None) ==> pid_tid_of(
            token,
        ) is None,
{
    let a = decimal(pid as nat);
    let b = decimal(tid as nat);
    let s = a.push('/') + b;
    law_decimal(pid as nat);
    law_decimal_reads_back(pid as nat, u64::MAX as nat);
    law_decimal_reads_back(tid as nat, u64::MAX as nat);
    let k = a.len() as int;
    assert(s.take(k) =~= a);
    assert(s.skip(k + 1) =~= b);
    assert(lacks(a, '/'));
    lemma_slash_at(s, k);
    lemma_first_char(token, '/');
    if lacks(token, '/') && first_char(token, '/') < token.len() {
        assert(token[first_char(token, '/')] != '/');
    }
    if 0 <= n < token.len() && token[n] == '/' && lacks(token.take(n), '/') {
        lemma_slash_at(token, n);
    }
}

proof fn lemma_first_pid_tid(tokens: Seq<Seq<char>>, n: int)
    requires
        0 <= n < tokens.len(),
        pid_tid_of(tokens[n]) is Some,
        forall|i: int| 0 <= i < n ==> pid_tid_of(#[trigger] tokens[i]) is None,
    ensures
        first_pid_tid(tokens) == n,
    decreases n,
{
    if n > 0 {
        assert(pid_tid_of(tokens[0]) is None);
        assert forall|i: int| 0 <= i < n - 1 implies pid_tid_of(
            #[trigger] tokens.skip(1)[i],
        ) is None by {
            assert(tokens.skip(1)[i] == tokens[i + 1]);
        }
        lemma_first_pid_tid(tokens.skip(1), n - 1);
    }
}

proof fn lemma_first_seconds_at(tokens: Seq<Seq<char>>, n: int)
    requires
        0 <= n < tokens.len(),
        is_seconds(tokens[n]),
        forall|i: int| 0 <= i < n ==> !is_seconds(#[trigger] tokens[i]),
    ensures
        first_seconds(tokens) == n,
    decreases n,
{
    if n > 0 {
        assert(!is_seconds(tokens[0]));
        assert forall|i: int| 0 <= i < n - 1 implies !is_seconds(#[trigger] tokens.skip(1)[i]) by {
            assert(tokens.skip(1)[i] == tokens[i + 1]);
        }
        lemma_first_seconds_at(tokens.skip(1), n - 1);
    }
}

/// The words of a header: a command of any number of words, the ids, words such as a
/// processor in brackets, the seconds and a colon, and what follows.
pub open spec fn header_words(
    comm: Seq<Seq<char>>,
    pid: u64,
    tid: u64,
    mid: Seq<Seq<char>>,
    seconds: Seq<char>,
    rest: Seq<Seq<char>>,
) -> Seq<Seq<char>> {
    comm.push(decimal(pid as nat).push('/') + decimal(tid as nat)) + mid.push(seconds.push(':'))
        + rest
}

/// A header that is written out reads back: the command with all its words, the ids, the
/// seconds as they are written, and the period that follows them.
pub proof fn law_header_reads_back(
    comm: Seq<Seq<char>>,
    pid: u64,
    tid: u64,
    mid: Seq<Seq<char>>,
    whole: Seq<char>,
    fraction: Seq<char>,
    rest: Seq<Seq<char>>,
)
    requires
        forall|i: int| 0 <= i < comm.len() ==> lacks(#[trigger] comm[i], '/'),
        forall|i: int|
            0 <= i < mid.len() ==> (#[trigger] mid[i]).len() == 0 || mid[i].last() != ':',
        is_digit_text(whole),
        is_digit_text(fraction),
    ensures
        ({
            let seconds = whole.push('.') + fraction;
            let h = header_of(header_words(comm, pid, tid, mid, seconds, rest));
            &&& h is Some
            &&& h->0.comm == (if comm.len() == 0 {
                None
            } else {
                Some(joined(comm, seq![' ']))
            })
            &&& h->0.pid == pid
            &&& h->0.tid == tid
            &&& h->0.seconds == seconds
            &&& rest.len() == 0 ==> h->0.weight == 1
            &&& forall|n: nat| 1 <= n <= u64::MAX && rest.len() > 0 && rest[0] == #[trigger] decimal(
                n,
            ) ==> h->0.weight == n
            &&& rest.len() > 0 && rest[0] == decimal(0) ==> h->0.weight == 1
            &&& rest.len() > 0 && rest[0].len() > 0 && !('0' <= rest[0][0] <= '9') && rest[0][0]
                != '+' ==> h->0.weight == 1
        }),
{
    let seconds = whole.push('.') + fraction;
    let ids = decimal(pid as nat).push('/') + decimal(tid as nat);
    let tokens = header_words(comm, pid, tid, mid, seconds, rest);
    let p = comm.len() as int;
    law_ids(pid, tid, ids, 0);
    assert(tokens[p] == ids);
    assert forall|i: int| 0 <= i < p implies pid_tid_of(#[trigger] tokens[i]) is None by {
        assert(tokens[i] == comm[i]);
        law_ids(pid, tid, comm[i], 0);
    }
    lemma_first_pid_tid(tokens, p);
    let after = tokens.skip(p + 1);
    assert(after =~= mid.push(seconds.push(':')) + rest);
    let m = mid.len() as int;
    assert(after[m] == seconds.push(':'));
    law_float_text(whole, fraction);
    assert(seconds.push(':').drop_last() =~= seconds);
    assert forall|i: int| 0 <= i < m implies !is_seconds(#[trigger] after[i]) by {
        assert(after[i] == mid[i]);
    }
    lemma_first_seconds_at(after, m);
    assert(tokens.take(p) =~= comm);
    let s = p + 1 + m;
    assert(tokens[s] == after[m]);
    if rest.len() > 0 {
        assert(tokens[s + 1] == rest[0]);
        law_period(rest[0], 1);
    }
    assert forall|n: nat|
        1 <= n <= u64::MAX && rest.len() > 0 && rest[0] == #[trigger] decimal(n) implies header_of(
        tokens,
    )->0.weight == n by {
        law_period(rest[0], n);
    }
}

/// A line in which no word has a slash, or none ends with a colon, is no header.
pub proof fn law_not_a_header(tokens: Seq<Seq<char>>)
    requires
        (forall|i: int| 0 <= i < tokens.len() ==> lacks(#[trigger] tokens[i], '/')) || (forall|
            i: int,
        |
            0 <= i < tokens.len() ==> (#[trigger] tokens[i]).len() == 0 || tokens[i].last() != ':'),
    ensures
        header_of(tokens) is None,
{
    let p = first_pid_tid(tokens);
    lemma_pid_tid_found(tokens);
    if p < tokens.len() {
        law_ids(0, 0, tokens[p], 0);
        let after = tokens.skip(p + 1);
        lemma_seconds_found(after);
        let m = first_seconds(after);
        if m < after.len() {
            assert(after[m] == tokens[p + 1 + m]);
        }
    }
}

proof fn lemma_pid_tid_found(tokens: Seq<Seq<char>>)
    ensures
        0 <= first_pid_tid(tokens) <= tokens.len(),
        first_pid_tid(tokens) < tokens.len() ==> pid_tid_of(tokens[first_pid_tid(tokens)]) is Some,
    decreases tokens.len(),
{
    if tokens.len() > 0 && pid_tid_of(tokens[0]) is None {
        lemma_pid_tid_found(tokens.skip(1));
    }
}

proof fn lemma_seconds_found(tokens: Seq<Seq<char>>)
    ensures
        0 <= first_seconds(tokens) <= tokens.len(),
        first_seconds(tokens) < tokens.len() ==> is_seconds(tokens[first_seconds(tokens)]),
    decreases tokens.len(),
{
    if tokens.len() > 0 && !is_seconds(tokens[0]) {
        lemma_seconds_found(tokens.skip(1));
    }
}

// ---------------------------------------------------------------------------
// Frame lines read back
// ---------------------------------------------------------------------------

/// The text has something in it, and no white space at its ends.
pub open spec fn is_trimmed(s: Seq<char>) -> bool {
    s.len() > 0 && !is_space(s[0]) && !is_space(s.last())
}

proof fn lemma_trimmed(s: Seq<char>)
    requires
        is_trimmed(s),
    ensures
        trim_spec(s) == s,
{
    assert(trim_start_spec(s) == s);
    assert(trim_end_spec(s) == s);
}

proof fn lemma_trim_indent(indent: Seq<char>, s: Seq<char>)
    requires
        is_trimmed(s),
        forall|i: int| 0 <= i < indent.len() ==> is_space(#[trigger] indent[i]),
    ensures
        trim_spec(indent + s) == s,
{
    let line = indent + s;
    let k = law_trim(line);
    let t = trim_spec(line);
    let n = indent.len() as int;
    // The first and the last character of `s` stay.
    if t.len() == 0 || k > n {
        assert(is_space(line[n]));
    }
    if k + t.len() < line.len() {
        assert(is_space(line[line.len() - 1]));
    }
    if k < n {
        assert(t[0] == line[k]);
        assert(is_space(indent[k]));
    }
    assert(t =~= s);
}

/// There is but one last occurrence.
proof fn lemma_last_occurrence(s: Seq<char>, pat: Seq<char>, n: int)
    requires
        is_last_at(s, pat, n),
    ensures
        last_occurrence(s, pat) == Some(n),
{
    assert(occurs_at(s, pat, n));
    assert(occurs_in(s, pat));
    let c = choose|i: int| is_last_at(s, pat, i);
    assert(is_last_at(s, pat, c));
    if c < n {
        assert(!occurs_at(s, pat, n));
    }
    if n < c {
        assert(!occurs_at(s, pat, c));
    }
}

/// After what stands before it, the object has no other ` (` in it.
proof fn lemma_object_at(before: Seq<char>, dso: Seq<char>, close: Seq<char>)
    requires
        forall|i: int|
            0 <= i < dso.len() - 1 ==> !(#[trigger] dso[i] == ' ' && dso[i + 1] == '('),
        forall|i: int| 0 <= i < close.len() ==> #[trigger] close[i] == ')',
    ensures
        last_occurrence(before + seq![' ', '('] + dso + close, seq![' ', '(']) == Some(
            before.len() as int,
        ),
{
    let pat = seq![' ', '('];
    let rest = before + pat + dso + close;
    let n = before.len() as int;
    assert(rest.subrange(n, n + 2) =~= pat);
    assert forall|j: int| n < j implies !occurs_at(rest, pat, j) by {
        if occurs_at(rest, pat, j) {
            let part = rest.subrange(j, j + 2);
            assert(part[0] == ' ' && part[1] == '(');
            assert(rest[j] == ' ' && rest[j + 1] == '(');
            if j == n + 1 {
                assert(rest[j] == pat[1]);
            } else {
                let i = j - n - 2;
                if i + 1 < dso.len() {
                    assert(rest[j] == dso[i] && rest[j + 1] == dso[i + 1]);
                } else {
                    assert(rest[j + 1] == close[i + 1 - dso.len()]);
                }
            }
        }
    }
    lemma_last_occurrence(rest, pat, n);
}

/// The last ` (` of what follows the address opens the shared object.
proof fn lemma_dso_at(symbol: Seq<char>, dso: Seq<char>)
    requires
        is_trimmed(symbol),
        forall|i: int|
            0 <= i < dso.len() - 1 ==> !(#[trigger] dso[i] == ' ' && dso[i + 1] == '('),
        dso.len() > 0,
        dso.last() != ')',
    ensures
        symbol_and_dso(symbol + seq![' ', '('] + dso + seq![')']) == (symbol, Some(dso)),
{
    let close = seq![')'];
    let rest = symbol + seq![' ', '('] + dso + close;
    let n = symbol.len() as int;
    lemma_object_at(symbol, dso, close);
    assert(rest.take(n) =~= symbol);
    lemma_trimmed(symbol);
    assert(rest.skip(n + 2) =~= dso + close);
    lemma_without_close(dso, close);
}

/// A frame line that is written out reads back, whatever white space stands before it:
/// the address, the symbol (which may have blanks and parentheses in it) and the shared
/// object in the last parentheses. `[unknown]` stands for nothing.
pub proof fn law_frame_reads_back(
    indent: Seq<char>,
    addr: Seq<char>,
    symbol: Seq<char>,
    dso: Seq<char>,
    options: Options,
)
    requires
        forall|i: int| 0 <= i < indent.len() ==> is_space(#[trigger] indent[i]),
        addr.len() > 0,
        forall|i: int| 0 <= i < addr.len() ==> !is_space(#[trigger] addr[i]),
        !(addr.len() >= 2 && addr[0] == '0' && addr[1] == 'x'),
        is_trimmed(symbol),
        is_trimmed(dso),
        forall|i: int|
            0 <= i < dso.len() - 1 ==> !(#[trigger] dso[i] == ' ' && dso[i + 1] == '('),
        dso.last() != ')',
    ensures
        ({
            let line = indent + (addr.push(' ') + (symbol + seq![' ', '('] + dso + seq![')']));
            let prefixed = indent + ((seq!['0', 'x'] + addr).push(' ') + (symbol + seq![' ', '(']
                + dso + seq![')']));
            let f = frame_of(line, options);
            &&& f is Some
            &&& f->0.ip == seq!['0', 'x'] + addr
            &&& symbol == "[unknown]"@ <==> f->0.symbol is None
            &&& f->0.symbol is Some && options.include_offset ==> f->0.symbol->0 == symbol
            &&& f->0.symbol is Some && !options.include_offset ==> f->0.symbol->0 == stripped(
                symbol,
            )
            &&& f->0.dso == (if dso == "[unknown]"@ {
                None
            } else {
                Some(dso)
            })
            &&& frame_of(prefixed, options) == f
        }),
{
    lemma_frame_reads_back(indent, addr, symbol, dso, options);
    let prefixed = seq!['0', 'x'] + addr;
    assert forall|i: int| 0 <= i < prefixed.len() implies !is_space(#[trigger] prefixed[i]) by {
        if i >= 2 {
            assert(prefixed[i] == addr[i - 2]);
        }
    }
    lemma_frame_reads_back(indent, prefixed, symbol, dso, options);
    assert(prefixed.skip(2) =~= addr);
    assert(without_0x(prefixed) == without_0x(addr));
    assert(without_0x(addr) == addr);
}

proof fn lemma_frame_reads_back(
    indent: Seq<char>,
    addr: Seq<char>,
    symbol: Seq<char>,
    dso: Seq<char>,
    options: Options,
)
    requires
        forall|i: int| 0 <= i < indent.len() ==> is_space(#[trigger] indent[i]),
        addr.len() > 0,
        forall|i: int| 0 <= i < addr.len() ==> !is_space(#[trigger] addr[i]),
        is_trimmed(symbol),
        is_trimmed(dso),
        forall|i: int|
            0 <= i < dso.len() - 1 ==> !(#[trigger] dso[i] == ' ' && dso[i + 1] == '('),
        dso.last() != ')',
    ensures
        frame_of(
            indent + (addr.push(' ') + (symbol + seq![' ', '('] + dso + seq![')'])),
            options,
        ) == Some(
            FrameModel {
                ip: seq!['0', 'x'] + without_0x(addr),
                symbol: if symbol == "[unknown]"@ {
                    None
                } else if options.include_offset {
                    Some(symbol)
                } else {
                    Some(stripped(symbol))
                },
                dso: if dso == "[unknown]"@ {
                    None
                } else {
                    Some(dso)
                },
            },
        ),
{
    let rest = symbol + seq![' ', '('] + dso + seq![')'];
    let t = addr.push(' ') + rest;
    assert(t[0] == addr[0]);
    assert(t.last() == ')');
    assert(!is_space(')'));
    lemma_trim_indent(indent, t);
    lemma_first_space(t);
    let n = addr.len() as int;
    assert(t[n] == ' ');
    assert(is_space(t[n]));
    let p = first_space(t);
    if p < n {
        assert(t[p] == addr[p]);
    }
    if n < p {
        assert(!is_space(t[n]));
    }
    assert(t.take(n) =~= addr);
    assert(t.skip(n + 1) =~= rest);
    lemma_dso_at(symbol, dso);
    lemma_trimmed(symbol);
    lemma_trimmed(dso);
}

/// A symbol keeps what looks like an offset but is none: one without `+0x`, and one with
/// another character than a hexadecimal digit after it.
pub proof fn law_other_symbols_stay(name: Seq<char>, tail: Seq<char>, k: int)
    requires
        0 <= k < tail.len(),
        !('0' <= tail[k] <= '9' || 'a' <= tail[k] <= 'f' || 'A' <= tail[k] <= 'F'),
        lacks(tail, '+'),
    ensures
        stripped(name + seq!['+', '0', 'x'] + tail) == name + seq!['+', '0', 'x'] + tail,
        lacks(name, '+') ==> stripped(name) == name,
        stripped(seq!['+', '0', 'x'] + tail) == seq!['+', '0', 'x'] + tail,
{
    let pat = seq!['+', '0', 'x'];
    lemma_kept_tail(name, tail, k);
    lemma_kept_tail(Seq::empty(), tail, k);
    assert(Seq::<char>::empty() + pat + tail =~= pat + tail);
    if lacks(name, '+') && occurs_in(name, pat) {
        let i = choose|i: int| occurs_at(name, pat, i);
        assert(name.subrange(i, i + 3)[0] == '+');
        assert(name[i] == '+');
    }
}

proof fn lemma_kept_tail(name: Seq<char>, tail: Seq<char>, k: int)
    requires
        0 <= k < tail.len(),
        !('0' <= tail[k] <= '9' || 'a' <= tail[k] <= 'f' || 'A' <= tail[k] <= 'F'),
        lacks(tail, '+'),
    ensures
        stripped(name + seq!['+', '0', 'x'] + tail) == name + seq!['+', '0', 'x'] + tail,
{
    let pat = seq!['+', '0', 'x'];
    let symbol = name + pat + tail;
    let at = name.len() as int;
    assert(symbol.subrange(at, at + 3) =~= pat);
    assert(occurs_at(symbol, pat, at));
    assert forall|j: int| at < j implies !occurs_at(symbol, pat, j) by {
        if occurs_at(symbol, pat, j) {
            assert(symbol.subrange(j, j + 3)[0] == '+');
            assert(symbol[j] == '+');
            if j >= at + 3 {
                assert(symbol[j] == tail[j - at - 3]);
            }
        }
    }
    lemma_last_occurrence(symbol, pat, at);
    assert(symbol.skip(at + 3) =~= tail);
    assert(!is_hex_digit(tail[k]));
}

// ---------------------------------------------------------------------------
// Records read back
// ---------------------------------------------------------------------------

/// The line starts with white space and has something else in it.
pub open spec fn is_frame_line(line: Seq<char>) -> bool {
    line.len() > 0 && is_space(line[0]) && exists|i: int|
        0 <= i < line.len() && !is_space(#[trigger] line[i])
}

proof fn lemma_not_blank(line: Seq<char>, i: int)
    requires
        0 <= i < line.len(),
        !is_space(line[i]),
    ensures
        !is_blank(line),
{
    let k = law_trim(line);
    if trim_spec(line).len() == 0 {
        assert(is_space(line[i]));
    }
}

/// A line is blank if and only if all of it is white space.
pub proof fn law_blank(line: Seq<char>)
    ensures
        is_blank(line) <==> forall|i: int| 0 <= i < line.len() ==> is_space(#[trigger] line[i]),
{
    let k = law_trim(line);
    if forall|i: int| 0 <= i < line.len() ==> is_space(#[trigger] line[i]) {
        if trim_spec(line).len() > 0 {
            assert(trim_spec(line)[0] == line[k]);
        }
    }
}

/// A header and the frame lines below it are one record: what the header says, with the
/// frames in the order of the lines, innermost first.
pub proof fn law_record_reads_back(header: Seq<char>, frames: Seq<Seq<char>>, options: Options)
    requires
        header.len() > 0,
        !is_space(header[0]),
        header_of(words(header)) is Some,
        frames.len() > 0,
        forall|i: int|
            0 <= i < frames.len() ==> is_frame_line(#[trigger] frames[i]) && frame_of(
                frames[i],
                options,
            ) is Some,
    ensures
        ({
            let h = header_of(words(header))->0;
            let r = records_of(seq![header] + frames, options);
            &&& r.len() == 1
            &&& r[0].pid == h.pid
            &&& r[0].tid == h.tid
            &&& r[0].name == h.comm
            &&& r[0].timestamp_ns == h.seconds
            &&& r[0].weight == h.weight
            &&& r[0].stack.len() == frames.len()
            &&& forall|i: int|
                0 <= i < frames.len() ==> Some(#[trigger] r[0].stack[i]) == frame_of(
                    frames[i],
                    options,
                )
        }),
{
    lemma_record_state(header, frames, options);
}

proof fn lemma_record_state(header: Seq<char>, frames: Seq<Seq<char>>, options: Options)
    requires
        header.len() > 0,
        !is_space(header[0]),
        header_of(words(header)) is Some,
        forall|i: int|
            0 <= i < frames.len() ==> is_frame_line(#[trigger] frames[i]) && frame_of(
                frames[i],
                options,
            ) is Some,
    ensures
        ({
            let h = header_of(words(header))->0;
            let state = state_after(seq![header] + frames, options);
            &&& state.done.len() == 0
            &&& state.current is Some
            &&& state.current->0.pid == h.pid
            &&& state.current->0.tid == h.tid
            &&& state.current->0.name == h.comm
            &&& state.current->0.timestamp_ns == h.seconds
            &&& state.current->0.weight == h.weight
            &&& state.current->0.stack.len() == frames.len()
            &&& forall|i: int|
                0 <= i < frames.len() ==> Some(#[trigger] state.current->0.stack[i]) == frame_of(
                    frames[i],
                    options,
                )
        }),
    decreases frames.len(),
{
    let all = seq![header] + frames;
    if frames.len() == 0 {
        lemma_not_blank(header, 0);
        assert(all.drop_last() =~= Seq::<Seq<char>>::empty());
        assert(all.last() == header);
        assert(state_after(all.drop_last(), options) == ScriptState {
            done: Seq::empty(),
            current: None,
        });
    } else {
        let rest = frames.drop_last();
        assert forall|i: int| 0 <= i < rest.len() implies is_frame_line(#[trigger] rest[i])
            && frame_of(rest[i], options) is Some by {
            assert(rest[i] == frames[i]);
        }
        lemma_record_state(header, rest, options);
        assert(all.drop_last() =~= seq![header] + rest);
        let line = frames.last();
        assert(frames[frames.len() - 1] == line);
        assert(all.last() == line);
        let k = choose|i: int| 0 <= i < line.len() && !is_space(#[trigger] line[i]);
        lemma_not_blank(line, k);
        let before = state_after(seq![header] + rest, options).current->0;
        let after = state_after(all, options).current->0;
        assert(after.stack == before.stack.push(frame_of(line, options)->0));
        assert forall|i: int| 0 <= i < frames.len() implies Some(#[trigger] after.stack[i])
            == frame_of(frames[i], options) by {
            if i < rest.len() {
                assert(after.stack[i] == before.stack[i]);
                assert(rest[i] == frames[i]);
            }
        }
    }
}

/// A line that is not indented starts anew: what stands before it can be read apart.
pub proof fn law_headers_separate(
    before: Seq<Seq<char>>,
    header: Seq<char>,
    after: Seq<Seq<char>>,
    options: Options,
)
    requires
        header.len() > 0,
        !is_space(header[0]),
    ensures
        records_of(before + (seq![header] + after), options) == records_of(before, options)
            + records_of(seq![header] + after, options),
{
    let one = seq![header];
    lemma_not_blank(header, 0);
    let done = flushed(state_after(before, options)).done;
    let current = record_of(header);
    assert((before + one).drop_last() =~= before);
    assert((before + one).last() == header);
    assert(one.drop_last() =~= Seq::<Seq<char>>::empty());
    assert(state_after(before + one, options) == ScriptState { done, current });
    assert(one.last() == header);
    assert(state_after(one.drop_last(), options) == ScriptState {
        done: Seq::empty(),
        current: None,
    });
    assert(state_after(one, options) == ScriptState { done: Seq::empty(), current });
    lemma_state_from(before + one, after, options);
    lemma_state_from(one, after, options);
    assert((before + one) + after =~= before + (one + after));
    lemma_done_apart_in(done, current, after, options);
    let a = state_after(before + (one + after), options);
    let b = state_after(one + after, options);
    assert(flushed(a).done =~= done + flushed(b).done);
}

proof fn lemma_done_apart_in(
    done: Seq<RecordModel<Seq<char>>>,
    current: Option<RecordModel<Seq<char>>>,
    lines: Seq<Seq<char>>,
    options: Options,
)
    ensures
        ({
            let a = state_from(ScriptState { done, current }, lines, options);
            let b = state_from(ScriptState { done: Seq::empty(), current }, lines, options);
            a.current == b.current && a.done == done + b.done
        }),
    decreases lines.len(),
{
    if lines.len() == 0 {
        assert(done + Seq::<RecordModel<Seq<char>>>::empty() =~= done);
    } else {
        lemma_done_apart_in(done, current, lines.drop_last(), options);
        let a = state_from(ScriptState { done, current }, lines.drop_last(), options);
        let b = state_from(
            ScriptState { done: Seq::empty(), current },
            lines.drop_last(),
            options,
        );
        assert(flushed(a).done =~= done + flushed(b).done);
    }
}

/// Lines without a header make no record, and neither does a header without frames.
pub proof fn law_no_record(header: Seq<char>, lines: Seq<Seq<char>>, options: Options)
    requires
        header.len() > 0,
        !is_space(header[0]),
        forall|i: int|
            0 <= i < lines.len() ==> (#[trigger] lines[i]).len() == 0 || is_space(lines[i][0]),
    ensures
        records_of(lines, options).len() == 0,
        header_of(words(header)) is None ==> records_of(seq![header] + lines, options).len() == 0,
        records_of(seq![header], options).len() == 0,
{
    lemma_no_record(Seq::empty(), None, lines, options);
    assert(Seq::<Seq<char>>::empty() + lines =~= lines);
    lemma_state_from(Seq::empty(), lines, options);
    let one = seq![header];
    lemma_not_blank(header, 0);
    assert(one.drop_last() =~= Seq::<Seq<char>>::empty());
    assert(one.last() == header);
    lemma_state_from(one, lines, options);
    if header_of(words(header)) is None {
        assert(state_after(one, options) == ScriptState { done: Seq::empty(), current: None });
    }
}

proof fn lemma_no_record(
    done: Seq<RecordModel<Seq<char>>>,
    current: Option<RecordModel<Seq<char>>>,
    lines: Seq<Seq<char>>,
    options: Options,
)
    requires
        current is None,
        forall|i: int|
            0 <= i < lines.len() ==> (#[trigger] lines[i]).len() == 0 || is_space(lines[i][0]),
    ensures
        state_from(ScriptState { done, current }, lines, options) == (ScriptState {
            done,
            current,
        }),
    decreases lines.len(),
{
    if lines.len() > 0 {
        let rest = lines.drop_last();
        assert forall|i: int| 0 <= i < rest.len() implies (#[trigger] rest[i]).len() == 0
            || is_space(rest[i][0]) by {
            assert(rest[i] == lines[i]);
        }
        lemma_no_record(done, current, rest, options);
        let line = lines[lines.len() - 1];
        if line.len() == 0 {
            law_blank(line);
        }
    }
}

// ---------------------------------------------------------------------------
// Other headers, other frame lines
// ---------------------------------------------------------------------------

/// The ids of a token are the numbers before and after its first slash, where both are
/// numbers; a time is a number with a colon after it.
pub proof fn law_ids_and_seconds(token: Seq<char>, n: int)
    requires
        0 <= n < token.len(),
    ensures
        token[n] == '/' && lacks(token.take(n), '/') ==> {
            let pid = parsed_number(token.take(n), u64::MAX as nat);
            let tid = parsed_number(token.skip(n + 1), u64::MAX as nat);
            &&& pid is Some && tid is Some ==> pid_tid_of(token) == Some(
                (pid->0 as u64, tid->0 as u64),
            )
            &&& pid is None || tid is None ==> pid_tid_of(token) is None
        },
        is_seconds(token) <==> token.last() == ':' && is_float_text(token.take(token.len() - 1)),
{
    if token[n] == '/' && lacks(token.take(n), '/') {
        lemma_slash_at(token, n);
    }
    assert(token.drop_last() =~= token.take(token.len() - 1));
}

/// The words are a header if and only if one has ids and a later one is a time. The first
/// that has ids counts, and the first time after it.
pub proof fn law_header_found(tokens: Seq<Seq<char>>, p: int, s: int)
    requires
        0 <= p < s < tokens.len(),
        pid_tid_of(tokens[p]) is Some,
        forall|i: int| 0 <= i < p ==> pid_tid_of(#[trigger] tokens[i]) is None,
        is_seconds(tokens[s]),
        forall|i: int| p < i < s ==> !is_seconds(#[trigger] tokens[i]),
    ensures
        ({
            let h = header_of(tokens);
            &&& h is Some
            &&& pid_tid_of(tokens[p]) == Some((h->0.pid, h->0.tid))
            &&& h->0.seconds == tokens[s].take(tokens[s].len() - 1)
            &&& p == 0 ==> h->0.comm is None
            &&& p > 0 ==> h->0.comm == Some(joined(tokens.take(p), seq![' ']))
            &&& h->0.weight == (if s + 1 < tokens.len() {
                period_of(tokens[s + 1])
            } else {
                1
            })
        }),
{
    lemma_first_pid_tid(tokens, p);
    let after = tokens.skip(p + 1);
    assert(after[s - p - 1] == tokens[s]);
    assert forall|i: int| 0 <= i < s - p - 1 implies !is_seconds(#[trigger] after[i]) by {
        assert(after[i] == tokens[i + p + 1]);
    }
    lemma_first_seconds_at(after, s - p - 1);
    assert(tokens[s].drop_last() =~= tokens[s].take(tokens[s].len() - 1));
}

/// Words of which none has ids, or none after the first that has is a time, are no header.
pub proof fn law_no_header_found(tokens: Seq<Seq<char>>)
    requires
        header_of(tokens) is Some,
    ensures
        exists|p: int, s: int|
            0 <= p < s < tokens.len() && pid_tid_of(#[trigger] tokens[p]) is Some && is_seconds(
                #[trigger] tokens[s],
            ),
{
    lemma_pid_tid_found(tokens);
    let p = first_pid_tid(tokens);
    let after = tokens.skip(p + 1);
    lemma_seconds_found(after);
    let s = p + 1 + first_seconds(after);
    assert(tokens[s] == after[first_seconds(after)]);
    assert(pid_tid_of(tokens[p]) is Some && is_seconds(tokens[s]));
}

/// A line with an address and nothing else is no frame; without parentheses all that
/// follows the address is the symbol.
pub proof fn law_frame_without_object(
    indent: Seq<char>,
    addr: Seq<char>,
    gap: Seq<char>,
    symbol: Seq<char>,
    options: Options,
)
    requires
        forall|i: int| 0 <= i < indent.len() ==> is_space(#[trigger] indent[i]),
        addr.len() > 0,
        forall|i: int| 0 <= i < addr.len() ==> !is_space(#[trigger] addr[i]),
        gap.len() > 0,
        forall|i: int| 0 <= i < gap.len() ==> is_space(#[trigger] gap[i]),
        is_trimmed(symbol),
        lacks(symbol, '('),
    ensures
        frame_of(indent + addr, options) is None,
        frame_of(indent + (addr + gap + symbol), options) is Some,
        frame_of(indent + (addr + gap + symbol), options)->0.dso is None,
        symbol == "[unknown]"@ <==> frame_of(
            indent + (addr + gap + symbol),
            options,
        )->0.symbol is None,
        symbol != "[unknown]"@ && options.include_offset ==> frame_of(
            indent + (addr + gap + symbol),
            options,
        )->0.symbol == Some(symbol),
        symbol != "[unknown]"@ && !options.include_offset ==> frame_of(
            indent + (addr + gap + symbol),
            options,
        )->0.symbol == Some(stripped(symbol)),
{
    let n = addr.len() as int;
    assert(is_trimmed(addr)) by {
        assert(!is_space(addr[0]) && !is_space(addr[n - 1]));
    }
    lemma_trim_indent(indent, addr);
    lemma_first_space(addr);
    if first_space(addr) < n {
        assert(is_space(addr[first_space(addr)]));
    }
    let t = addr + gap + symbol;
    assert(t[0] == addr[0]);
    assert(t.last() == symbol.last());
    lemma_trim_indent(indent, t);
    lemma_first_space(t);
    let p = first_space(t);
    assert(t[n] == gap[0]);
    if p < n {
        assert(t[p] == addr[p]);
    }
    if n < p {
        assert(!is_space(t[n]));
    }
    let rest = t.skip(n + 1);
    let blank = gap.skip(1);
    assert(rest =~= blank + symbol);
    assert forall|i: int| 0 <= i < blank.len() implies is_space(#[trigger] blank[i]) by {
        assert(blank[i] == gap[i + 1]);
    }
    lemma_trim_indent(blank, symbol);
    let pat = seq![' ', '('];
    if occurs_in(rest, pat) {
        let i = choose|i: int| occurs_at(rest, pat, i);
        assert(rest.subrange(i, i + 2)[1] == '(');
        assert(rest[i + 1] == '(');
        if i + 1 < blank.len() {
            assert(is_space(blank[i + 1]));
            assert(!is_space('('));
        } else {
            assert(rest[i + 1] == symbol[i + 1 - blank.len()]);
        }
    }
    lemma_trimmed(symbol);
}

/// White space of any kind and length may stand around the symbol, and any number of
/// closing parentheses after the object.
pub proof fn law_frame_spacing(
    addr: Seq<char>,
    gap: Seq<char>,
    symbol: Seq<char>,
    dso: Seq<char>,
    close: Seq<char>,
    options: Options,
)
    requires
        addr.len() > 0,
        forall|i: int| 0 <= i < addr.len() ==> !is_space(#[trigger] addr[i]),
        gap.len() > 0,
        forall|i: int| 0 <= i < gap.len() ==> is_space(#[trigger] gap[i]),
        is_trimmed(symbol),
        is_trimmed(dso),
        forall|i: int|
            0 <= i < dso.len() - 1 ==> !(#[trigger] dso[i] == ' ' && dso[i + 1] == '('),
        dso.last() != ')',
        close.len() > 0,
        forall|i: int| 0 <= i < close.len() ==> #[trigger] close[i] == ')',
    ensures
        frame_of(addr + gap + (symbol + gap + seq![' ', '('] + dso + close), options) == frame_of(
            addr.push(' ') + (symbol + seq![' ', '('] + dso + seq![')']),
            options,
        ),
{
    let n = addr.len() as int;
    let t = addr + gap + (symbol + gap + seq![' ', '('] + dso + close);
    assert(t[0] == addr[0]);
    assert(t.last() == close.last());
    assert(close[close.len() - 1] == ')');
    assert(!is_space(')'));
    assert(!is_space(addr[0]));
    lemma_trimmed(t);
    lemma_first_space(t);
    assert(t[n] == gap[0]);
    let p = first_space(t);
    if p < n {
        assert(t[p] == addr[p]);
    }
    if n < p {
        assert(!is_space(t[n]));
    }
    assert(t.take(n) =~= addr);
    let blank = gap.skip(1);
    let rest = t.skip(n + 1);
    let before = blank + symbol + gap;
    let pat = seq![' ', '('];
    assert(rest =~= before + pat + dso + close);
    let at = before.len() as int;
    lemma_object_at(before, dso, close);
    assert(rest.take(at) =~= before);
    assert(rest.skip(at + 2) =~= dso + close);
    lemma_trim_around(blank, symbol, gap);
    lemma_without_close(dso, close);
    lemma_frame_reads_back(Seq::empty(), addr, symbol, dso, options);
    let plain = addr.push(' ') + (symbol + seq![' ', '('] + dso + seq![')']);
    assert(Seq::<char>::empty() + plain =~= plain);
    lemma_trimmed(symbol);
    lemma_trimmed(dso);
}

proof fn lemma_without_close(dso: Seq<char>, close: Seq<char>)
    requires
        dso.len() > 0,
        dso.last() != ')',
        forall|i: int| 0 <= i < close.len() ==> #[trigger] close[i] == ')',
    ensures
        without_parens(dso + close) == dso,
    decreases close.len(),
{
    if close.len() == 0 {
        assert(dso + close =~= dso);
    } else {
        assert((dso + close).last() == close[close.len() - 1]);
        assert((dso + close).drop_last() =~= dso + close.drop_last());
        lemma_without_close(dso, close.drop_last());
    }
}

proof fn lemma_trim_around(a: Seq<char>, s: Seq<char>, b: Seq<char>)
    requires
        is_trimmed(s),
        forall|i: int| 0 <= i < a.len() ==> is_space(#[trigger] a[i]),
        forall|i: int| 0 <= i < b.len() ==> is_space(#[trigger] b[i]),
    ensures
        trim_spec(a + s + b) == s,
{
    let line = a + s + b;
    let k = law_trim(line);
    let t = trim_spec(line);
    let n = a.len() as int;
    let m = n + s.len() - 1;
    assert(line[n] == s[0] && line[m] == s.last());
    if t.len() == 0 || k > n || k + t.len() <= n {
        assert(is_space(line[n]));
    }
    if k + t.len() <= m {
        assert(is_space(line[m]));
    }
    if k < n {
        assert(t[0] == line[k]);
        assert(is_space(a[k]));
    }
    if k + t.len() > m + 1 {
        let e = k + t.len() - 1;
        assert(t.last() == line[e]);
        assert(line[e] == b[e - m - 1]);
    }
    assert(t =~= s);
}

/// An indented line that is no frame changes nothing.
pub proof fn law_other_lines_are_skipped(
    before: Seq<Seq<char>>,
    line: Seq<char>,
    after: Seq<Seq<char>>,
    options: Options,
)
    requires
        is_frame_line(line),
        frame_of(line, options) is None,
    ensures
        records_of(before.push(line) + after, options) == records_of(before + after, options),
{
    let k = choose|i: int| 0 <= i < line.len() && !is_space(#[trigger] line[i]);
    lemma_not_blank(line, k);
    assert(before.push(line).drop_last() =~= before);
    assert(state_after(before.push(line), options) == state_after(before, options));
    lemma_state_from(before.push(line), after, options);
    lemma_state_from(before, after, options);
}

/// The threads of a profile, their times taken as texts, are the same threads: ids, names,
/// frames, and samples with their stacks and weights in order.
pub proof fn law_text_times(profile: Profile<String>, t: int, i: int)
    requires
        0 <= t < profile.threads@.len(),
    ensures
        ({
            let thread = profile.threads@[t];
            let seen = with_text_times(profile@)[t];
            &&& with_text_times(profile@).len() == profile.threads@.len()
            &&& seen.pid == thread.pid
            &&& seen.tid == thread.tid
            &&& seen.name == thread@.name
            &&& thread.name is Some ==> seen.name == Some(thread.name->0@)
            &&& thread.name is None ==> seen.name is None
            &&& seen.frames == thread@.frames
            &&& seen.samples.len() == thread.samples@.len()
            &&& 0 <= i < thread.samples@.len() ==> {
                &&& seen.samples[i].stack == thread.samples@[i].stack@
                &&& seen.samples[i].weight == thread.samples@[i].weight
                &&& seen.samples[i].timestamp_ns == thread.samples@[i].timestamp_ns@
            }
        }),
{
    let thread = profile.threads@[t];
    assert(profile@[t] == thread@);
    if 0 <= i < thread.samples@.len() {
        assert(thread@.samples[i] == thread.samples@[i]@);
    }
}

/// The digits of an offset may be in letters of either case.
pub proof fn law_hexadecimal_offsets_are_stripped(name: Seq<char>, offset: Seq<char>)
    requires
        name.len() > 0,
        forall|i: int|
            0 <= i < offset.len() ==> ('0' <= #[trigger] offset[i] <= '9' || 'a' <= offset[i]
                <= 'f' || 'A' <= offset[i] <= 'F'),
    ensures
        stripped(name + seq!['+', '0', 'x'] + offset) == name,
{
    assert forall|i: int| 0 <= i < offset.len() implies is_hex_digit(#[trigger] offset[i]) by {
        assert('0' <= offset[i] <= '9' || 'a' <= offset[i] <= 'f' || 'A' <= offset[i] <= 'F');
    }
    law_offsets_are_stripped(name, offset);
}

/// A plus sign before a period changes nothing.
pub proof fn law_signed_period(token: Seq<char>)
    requires
        is_digit_text(token),
    ensures
        period_of(seq!['+'] + token) == period_of(token),
{
    law_parsed_number(token, u64::MAX as nat);
}

} // verus!
