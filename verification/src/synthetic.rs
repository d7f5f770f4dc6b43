//! Synthetic `perf script` output of any size, for trying out large files.
//!
//! A [`Generator`] walks a call stack the way a program does: from sample to sample it
//! unwinds a few frames and then descends again, so that consecutive stacks share long
//! prefixes and all share one root.

use crate::parsers::perf_script::{
    frame_of, is_trimmed, lacks, law_frame_reads_back, law_other_symbols_stay,
};
use crate::parsers::Options;
use crate::text::{
    decimal, digits, is_space, law_decimal, law_hexadecimal, positional, push_decimal, push_hex,
};
use vstd::prelude::*;

verus! {

/// How many functions there are to call.
pub const FUNCTIONS: usize = 4000;

/// One step of a xorshift generator.
pub open spec fn shifted(x: u64) -> u64 {
    let a = x ^ (x << 13u64);
    let b = a ^ (a >> 7u64);
    b ^ (b << 17u64)
}

/// One step of a xorshift generator.
pub fn next_random(x: u64) -> (r: u64)
    ensures
        r == shifted(x),
{
    let a: u64 = x ^ (x << 13u64);
    let b: u64 = a ^ (a >> 7u64);
    b ^ (b << 17u64)
}

/// A program at the moment of a sample.
#[verifier::ext_equal]
pub struct WalkModel {
    /// The state of the random numbers.
    pub random: u64,
    /// The time in nanoseconds.
    pub time: int,
    /// The functions on the stack, root first.
    pub stack: Seq<usize>,
}

/// The function that `from` calls, `step` further on. The last one calls no further.
pub open spec fn callee(from: usize, step: u64) -> usize {
    if from + step < FUNCTIONS {
        (from + step) as usize
    } else {
        (FUNCTIONS - 1) as usize
    }
}

/// The stack after calls down to `depth`, and the random numbers after them. The last
/// function ends the descent.
pub open spec fn descended(stack: Seq<usize>, random: u64, depth: nat) -> (Seq<usize>, u64)
    decreases depth - stack.len(),
{
    if stack.len() >= depth || stack.len() == 0 {
        (stack, random)
    } else {
        let r = shifted(random);
        let child = callee(stack.last(), (1 + r % 80) as u64);
        if child == FUNCTIONS - 1 {
            (stack.push(child), r)
        } else {
            descended(stack.push(child), r, depth)
        }
    }
}

/// The stack after up to `n` frames were left, but not the two outermost functions.
pub open spec fn unwound(stack: Seq<usize>, n: int) -> Seq<usize> {
    if stack.len() <= 2 || n <= 0 {
        stack
    } else if stack.len() - n < 2 {
        stack.take(2)
    } else {
        stack.take(stack.len() - n)
    }
}

/// The program at the next sample.
pub open spec fn walked(w: WalkModel) -> WalkModel {
    let r1 = shifted(w.random);
    let r2 = shifted(r1);
    let (stack, r3) = descended(
        unwound(w.stack, (r1 % 4) as int),
        r2,
        (8 + r2 % 40) as nat,
    );
    let r4 = shifted(r3);
    WalkModel { random: r4, time: w.time + 1000 + r4 % 4000, stack }
}

/// `s` with zeros before it, to `width` characters.
pub open spec fn zero_padded(s: Seq<char>, width: nat) -> Seq<char> {
    if s.len() < width {
        Seq::new((width - s.len()) as nat, |i: int| '0') + s
    } else {
        s
    }
}

/// The line of a stack frame.
pub open spec fn frame_line_spec(function: usize) -> Seq<char> {
    "\t"@ + zero_padded(digits((0x400000 + function * 0x40) as nat, 16), 12) + " func_"@
        + zero_padded(decimal(function as nat), 4) + " (/app/lib/module_"@ + zero_padded(
        decimal((function % 50) as nat),
        2,
    ) + ".so)\n"@
}

/// The lines of the innermost `n` frames of a stack, the leaf first.
pub open spec fn frame_lines(stack: Seq<usize>, n: int) -> Seq<char>
    decreases n,
{
    if n <= 0 || n > stack.len() {
        Seq::empty()
    } else {
        frame_lines(stack, n - 1) + frame_line_spec(stack[stack.len() - n])
    }
}

/// The record of a sample.
pub open spec fn record_text_spec(time: int, stack: Seq<usize>) -> Seq<char> {
    "program 1000/1000 "@ + decimal((time / 1_000_000_000) as nat) + "."@ + zero_padded(
        decimal((time % 1_000_000_000) as nat),
        9,
    ) + ": 1 cycles:\n"@ + frame_lines(stack, stack.len() as int) + "\n"@
}

/// Appends a text with zeros before it, to `width` characters.
fn push_zero_padded(out: &mut String, s: &str, width: usize)
    ensures
        final(out)@ == old(out)@ + zero_padded(s@, width as nat),
{
    let ghost start = out@;
    let n = s.unicode_len();
    if n < width {
        let missing = width - n;
        for i in 0..missing
            invariant
                out@ =~= start + Seq::new(i as nat, |k: int| '0'),
        {
            out.push('0');
        }
    }
    out.append(s);
    assert(out@ =~= start + zero_padded(s@, width as nat));
}

/// Appends the line of a stack frame.
fn push_frame_line(out: &mut String, function: usize)
    requires
        function < FUNCTIONS,
    ensures
        final(out)@ == old(out)@ + frame_line_spec(function),
{
    let ghost start = out@;
    let mut address = String::new();
    push_hex(&mut address, 0x400000 + function as u64 * 0x40);
    assert(address@ =~= digits((0x400000 + function * 0x40) as nat, 16));
    let mut number = String::new();
    push_decimal(&mut number, function as u64);
    assert(number@ =~= decimal(function as nat));
    let mut module = String::new();
    push_decimal(&mut module, (function % 50) as u64);
    assert(module@ =~= decimal((function % 50) as nat));
    out.append("\t");
    push_zero_padded(out, address.as_str(), 12);
    out.append(" func_");
    push_zero_padded(out, number.as_str(), 4);
    out.append(" (/app/lib/module_");
    push_zero_padded(out, module.as_str(), 2);
    out.append(".so)\n");
    assert(out@ =~= start + frame_line_spec(function));
}

/// A program that is sampled again and again.
pub struct Generator {
    random: u64,
    time: u64,
    stack: Vec<usize>,
}

impl View for Generator {
    type V = WalkModel;

    closed spec fn view(&self) -> WalkModel {
        WalkModel { random: self.random, time: self.time as int, stack: self.stack@ }
    }
}

impl Generator {
    /// The stack holds at least the two outermost functions, and no function that
    /// does not exist.
    pub open spec fn wf(&self) -> bool {
        &&& self@.stack.len() >= 2
        &&& forall|i: int| 0 <= i < self@.stack.len() ==> (#[trigger] self@.stack[i]) < FUNCTIONS
    }

    /// A program that was just started.
    pub fn new() -> (r: Self)
        ensures
            r.wf(),
            r@ == (WalkModel {
                random: 0x9e3779b97f4a7c15,
                time: 1_000_000_000,
                stack: seq![0usize, 1usize],
            }),
    {
        let mut stack: Vec<usize> = Vec::new();
        stack.push(0);
        stack.push(1);
        let r = Generator { random: 0x9e3779b97f4a7c15, time: 1_000_000_000, stack };
        assert(r@.stack =~= seq![0usize, 1usize]);
        r
    }

    /// The time in nanoseconds.
    pub fn time(&self) -> (r: u64)
        ensures
            r == self@.time,
    {
        self.time
    }

    /// Goes on to the next sample.
    pub fn advance(&mut self)
        requires
            old(self).wf(),
            old(self)@.time + 5000 <= u64::MAX,
        ensures
            final(self).wf(),
            final(self)@ == walked(old(self)@),
    {
        let ghost before = self@;
        let r1 = next_random(self.random);
        let popped = (r1 % 4) as usize;
        let depth_before = self.stack.len();
        if depth_before > 2 {
            let kept = if depth_before - 2 < popped {
                2
            } else {
                depth_before - popped
            };
            self.stack.truncate(kept);
            assert(self.stack@ =~= unwound(before.stack, (r1 % 4) as int));
        }
        let r2 = next_random(r1);
        let depth = (8 + r2 % 40) as usize;
        let r3 = self.descend(r2, depth);
        let r4 = next_random(r3);
        self.random = r4;
        self.time = self.time + 1000 + r4 % 4000;
        assert(self@ =~= walked(before));
    }

    /// Calls down to a depth; the result is the state of the random numbers.
    fn descend(&mut self, random: u64, depth: usize) -> (r: u64)
        requires
            old(self).wf(),
        ensures
            final(self).wf(),
            final(self).time == old(self).time,
            (final(self).stack@, r) == descended(old(self).stack@, random, depth as nat),
    {
        let ghost start = self.stack@;
        let mut r = random;
        while self.stack.len() < depth
            invariant
                self.wf(),
                self.time == old(self).time,
                start == old(self).stack@,
                descended(start, random, depth as nat) == descended(
                    self.stack@,
                    r,
                    depth as nat,
                ),
            decreases depth - self.stack@.len(),
        {
            let ghost shown = self.stack@;
            let from = self.stack[self.stack.len() - 1];
            assert(self@.stack[self.stack@.len() - 1] < FUNCTIONS);
            r = next_random(r);
            let step = 1 + r % 80;
            let further = from as u64 + step;
            let child: usize = if further < FUNCTIONS as u64 {
                further as usize
            } else {
                FUNCTIONS - 1
            };
            assert(child == callee(shown.last(), (1 + r % 80) as u64));
            self.stack.push(child);
            assert(self.wf()) by {
                assert forall|i: int| 0 <= i < self@.stack.len() implies (#[trigger] self@.stack[i])
                    < FUNCTIONS by {
                    if i < shown.len() {
                        assert(self@.stack[i] == shown[i]);
                    }
                }
            }
            if child == FUNCTIONS - 1 {
                return r;
            }
        }
        r
    }

    /// The record of the sample.
    pub fn record_text(&self) -> (r: String)
        requires
            self.wf(),
        ensures
            r@ == record_text_spec(self@.time, self@.stack),
    {
        let mut out = String::new();
        out.append("program 1000/1000 ");
        push_decimal(&mut out, self.time / 1_000_000_000);
        out.append(".");
        let mut fraction = String::new();
        push_decimal(&mut fraction, self.time % 1_000_000_000);
        assert(fraction@ =~= decimal((self@.time % 1_000_000_000) as nat));
        push_zero_padded(&mut out, fraction.as_str(), 9);
        out.append(": 1 cycles:\n");
        let ghost head = out@;
        let n = self.stack.len();
        assert(out@ =~= head + frame_lines(self@.stack, 0));
        for k in 0..n
            invariant
                n == self.stack@.len(),
                self.wf(),
                out@ == head + frame_lines(self@.stack, k as int),
        {
            let function = self.stack[n - 1 - k];
            assert(self@.stack[n - 1 - k] < FUNCTIONS);
            let ghost shown = out@;
            push_frame_line(&mut out, function);
            assert(out@ =~= head + frame_lines(self@.stack, k + 1));
        }
        out.append("\n");
        assert(out@ =~= record_text_spec(self@.time, self@.stack));
        out
    }
}

/// However long the program runs, its stack stays deeper than its outermost functions,
/// and it never goes deeper than 48 frames.
pub proof fn law_walk_is_bounded(w: WalkModel)
    requires
        2 <= w.stack.len() <= 48,
    ensures
        2 <= walked(w).stack.len() <= 48,
        walked(w).stack.take(2) == w.stack.take(2),
        w.time + 1000 <= walked(w).time < w.time + 5000,
{
    let r1 = shifted(w.random);
    let r2 = shifted(r1);
    let top = unwound(w.stack, (r1 % 4) as int);
    assert(top.take(2) =~= w.stack.take(2));
    lemma_descended(top, r2, (8 + r2 % 40) as nat);
}

proof fn lemma_descended(stack: Seq<usize>, random: u64, depth: nat)
    requires
        2 <= stack.len(),
    ensures
        stack.len() <= descended(stack, random, depth).0.len(),
        descended(stack, random, depth).0.len() <= (if stack.len() > depth {
            stack.len()
        } else {
            depth
        }),
        descended(stack, random, depth).0.take(2) == stack.take(2),
    decreases depth - stack.len(),
{
    if stack.len() < depth {
        let r = shifted(random);
        let child = callee(stack.last(), (1 + r % 80) as u64);
        assert(stack.push(child).take(2) =~= stack.take(2));
        if child != FUNCTIONS - 1 {
            lemma_descended(stack.push(child), r, depth);
        }
    }
}

/// Random numbers do not run together: different states have different successors, and
/// the numbers never run dry.
pub proof fn law_random_numbers_stay_apart(x: u64, y: u64)
    ensures
        x != y ==> shifted(x) != shifted(y),
        x != 0 ==> shifted(x) != 0,
{
    lemma_shift_left_13(x, y);
    lemma_shift_left_13(x, 0);
    let a = x ^ (x << 13u64);
    let b = y ^ (y << 13u64);
    let z = 0u64 ^ (0u64 << 13u64);
    lemma_shift_right_7(a, b);
    lemma_shift_right_7(a, z);
    let c = a ^ (a >> 7u64);
    let d = b ^ (b >> 7u64);
    let w = z ^ (z >> 7u64);
    lemma_shift_left_17(c, d);
    lemma_shift_left_17(c, w);
    assert(0u64 ^ (0u64 << 13u64) == 0) by (bit_vector);
    assert(0u64 ^ (0u64 >> 7u64) == 0) by (bit_vector);
    assert(0u64 ^ (0u64 << 17u64) == 0) by (bit_vector);
}

proof fn lemma_shift_left_13(x: u64, y: u64)
    ensures
        x != y ==> x ^ (x << 13u64) != y ^ (y << 13u64),
{
    assert(x != y ==> x ^ (x << 13u64) != y ^ (y << 13u64)) by (bit_vector);
}

proof fn lemma_shift_right_7(x: u64, y: u64)
    ensures
        x != y ==> x ^ (x >> 7u64) != y ^ (y >> 7u64),
{
    assert(x != y ==> x ^ (x >> 7u64) != y ^ (y >> 7u64)) by (bit_vector);
}

proof fn lemma_shift_left_17(x: u64, y: u64)
    ensures
        x != y ==> x ^ (x << 17u64) != y ^ (y << 17u64),
{
    assert(x != y ==> x ^ (x << 17u64) != y ^ (y << 17u64)) by (bit_vector);
}

/// From sample to sample the program leaves at most three frames and then calls on: each
/// new frame is that of a function further on, by at most eighty, or of the last one.
pub proof fn law_walk_shares_its_stack(w: WalkModel) -> (k: int)
    requires
        2 <= w.stack.len(),
        forall|i: int| 0 <= i < w.stack.len() ==> (#[trigger] w.stack[i]) < FUNCTIONS,
    ensures
        2 <= k <= w.stack.len(),
        k + 3 >= w.stack.len(),
        k <= walked(w).stack.len(),
        walked(w).stack.take(k) == w.stack.take(k),
        forall|i: int|
            k <= i < walked(w).stack.len() ==> (#[trigger] walked(w).stack[i]) < FUNCTIONS && (
            walked(w).stack[i - 1] < walked(w).stack[i] <= walked(w).stack[i - 1] + 80
                || walked(w).stack[i] == FUNCTIONS - 1),
{
    let r1 = shifted(w.random);
    let r2 = shifted(r1);
    let top = unwound(w.stack, (r1 % 4) as int);
    let k = top.len() as int;
    assert(top =~= w.stack.take(k));
    assert forall|i: int| 0 <= i < top.len() implies (#[trigger] top[i]) < FUNCTIONS by {
        assert(top[i] == w.stack[i]);
    }
    lemma_descent(top, r2, (8 + r2 % 40) as nat);
    k
}

proof fn lemma_descent(stack: Seq<usize>, random: u64, depth: nat)
    requires
        2 <= stack.len(),
        forall|i: int| 0 <= i < stack.len() ==> (#[trigger] stack[i]) < FUNCTIONS,
    ensures
        ({
            let after = descended(stack, random, depth).0;
            &&& stack.len() <= after.len()
            &&& after.take(stack.len() as int) == stack
            &&& forall|i: int|
                stack.len() <= i < after.len() ==> (#[trigger] after[i]) < FUNCTIONS && (after[i
                    - 1] < after[i] <= after[i - 1] + 80 || after[i] == FUNCTIONS - 1)
        }),
    decreases depth - stack.len(),
{
    assert(stack.take(stack.len() as int) =~= stack);
    if stack.len() < depth {
        let r = shifted(random);
        let n = stack.len() as int;
        assert(stack[n - 1] < FUNCTIONS);
        let child = callee(stack.last(), (1 + r % 80) as u64);
        let more = stack.push(child);
        assert(more.take(n) =~= stack);
        if child != FUNCTIONS - 1 {
            assert forall|i: int| 0 <= i < more.len() implies (#[trigger] more[i]) < FUNCTIONS by {
                if i < n {
                    assert(more[i] == stack[i]);
                }
            }
            lemma_descent(more, r, depth);
            let after = descended(more, r, depth).0;
            assert(after.take(n) =~= stack) by {
                assert forall|i: int| 0 <= i < n implies after[i] == stack[i] by {
                    assert(after.take(n + 1)[i] == more[i]);
                }
            }
            assert(after[n] == child && after[n - 1] == stack[n - 1]) by {
                assert(after.take(n + 1)[n] == more[n]);
                assert(after.take(n + 1)[n - 1] == more[n - 1]);
            }
        }
    }
}

/// Zeros before digits do not change what they write, and fill them up to the width.
pub proof fn law_zero_padded(s: Seq<char>, width: nat)
    ensures
        zero_padded(s, width).len() == (if s.len() < width {
            width
        } else {
            s.len()
        }),
        zero_padded(s, width).skip(zero_padded(s, width).len() - s.len()) == s,
        positional(zero_padded(s, width), 10) == positional(s, 10),
        positional(zero_padded(s, width), 16) == positional(s, 16),
{
    let p = zero_padded(s, width);
    assert(p.skip(p.len() - s.len()) =~= s);
    if s.len() < width {
        let zeros = Seq::new((width - s.len()) as nat, |i: int| '0');
        lemma_zeros_before(zeros, s, 10);
        lemma_zeros_before(zeros, s, 16);
    }
}

proof fn lemma_zeros_before(zeros: Seq<char>, s: Seq<char>, base: int)
    requires
        forall|i: int| 0 <= i < zeros.len() ==> #[trigger] zeros[i] == '0',
    ensures
        positional(zeros + s, base) == positional(s, base),
    decreases zeros.len() + s.len(),
{
    if s.len() > 0 {
        assert((zeros + s).drop_last() =~= zeros + s.drop_last());
        assert((zeros + s).last() == s.last());
        lemma_zeros_before(zeros, s.drop_last(), base);
    } else if zeros.len() > 0 {
        assert(zeros + s =~= zeros);
        assert(zeros[zeros.len() - 1] == '0');
        let rest = zeros.drop_last();
        assert(rest + s =~= rest);
        lemma_zeros_before(rest, s, base);
        assert(positional(zeros, base) == positional(rest, base) * base + 0);
        assert(0 * base == 0) by (nonlinear_arith);
    } else {
        assert(zeros + s =~= s);
    }
}

/// A record has a line for every frame of the stack, from the leaf to the root.
pub proof fn law_frame_lines(stack: Seq<usize>)
    ensures
        frame_lines(stack, stack.len() as int) == stack.reverse().fold_left(
            Seq::<char>::empty(),
            |text: Seq<char>, function: usize| text + frame_line_spec(function),
        ),
{
    lemma_frame_lines(stack, stack.len() as int);
    assert(stack.reverse().take(stack.len() as int) =~= stack.reverse());
}

proof fn lemma_frame_lines(stack: Seq<usize>, n: int)
    requires
        0 <= n <= stack.len(),
    ensures
        frame_lines(stack, n) == stack.reverse().take(n).fold_left(
            Seq::<char>::empty(),
            |text: Seq<char>, function: usize| text + frame_line_spec(function),
        ),
    decreases n,
{
    let leaf_first = stack.reverse();
    if n > 0 {
        lemma_frame_lines(stack, n - 1);
        assert(leaf_first.take(n).drop_last() =~= leaf_first.take(n - 1));
        assert(leaf_first.take(n).last() == stack[stack.len() - n]);
    }
}

/// The time of a record is written in seconds with nine digits after the point, which
/// together give the nanoseconds back.
pub proof fn law_record_time(time: int, stack: Seq<usize>)
    requires
        0 <= time,
    ensures
        ({
            let whole = decimal((time / 1_000_000_000) as nat);
            let fraction = zero_padded(decimal((time % 1_000_000_000) as nat), 9);
            let start = "program 1000/1000 "@ + whole + "."@ + fraction + ": 1 cycles:\n"@;
            &&& record_text_spec(time, stack).len() >= start.len()
            &&& record_text_spec(time, stack).take(start.len() as int) == start
            &&& positional(whole, 10) * 1_000_000_000 + positional(fraction, 10) == time
            &&& fraction.len() >= 9
        }),
{
    let q = time / 1_000_000_000;
    let r = time % 1_000_000_000;
    law_decimal(q as nat);
    law_decimal(r as nat);
    law_zero_padded(decimal(r as nat), 9);
    let whole = decimal(q as nat);
    let fraction = zero_padded(decimal(r as nat), 9);
    let start = "program 1000/1000 "@ + whole + "."@ + fraction + ": 1 cycles:\n"@;
    assert(record_text_spec(time, stack).take(start.len() as int) =~= start);
}

/// Padding digits with zeros leaves nothing but digits.
proof fn lemma_padded_digits(s: Seq<char>, width: nat)
    requires
        forall|i: int|
            0 <= i < s.len() ==> ('0' <= #[trigger] s[i] <= '9' || 'a' <= s[i] <= 'f'),
    ensures
        forall|i: int|
            0 <= i < zero_padded(s, width).len() ==> ('0' <= #[trigger] zero_padded(s, width)[i]
                <= '9' || 'a' <= zero_padded(s, width)[i] <= 'f'),
{
    let p = zero_padded(s, width);
    let k = p.len() - s.len();
    assert forall|i: int| 0 <= i < p.len() implies ('0' <= #[trigger] p[i] <= '9' || 'a' <= p[i]
        <= 'f') by {
        if i >= k {
            assert(p[i] == s[i - k]);
        }
    }
}

/// The parts of a frame line.
proof fn lemma_frame_line(function: usize)
    ensures
        ({
            let addr = zero_padded(digits((0x400000 + function * 0x40) as nat, 16), 12);
            let number = zero_padded(decimal(function as nat), 4);
            let module = zero_padded(decimal((function % 50) as nat), 2);
            let symbol = "func_"@ + number;
            let dso = "/app/lib/module_"@ + module + ".so"@;
            let rest = symbol + seq![' ', '('] + dso + seq![')'];
            frame_line_spec(function) == (seq!['\t'] + (addr.push(' ') + rest)).push('\n')
        }),
{
    let addr = zero_padded(digits((0x400000 + function * 0x40) as nat, 16), 12);
    let number = zero_padded(decimal(function as nat), 4);
    let module = zero_padded(decimal((function % 50) as nat), 2);
    reveal_strlit("\t");
    reveal_strlit(" func_");
    reveal_strlit("func_");
    reveal_strlit(" (/app/lib/module_");
    reveal_strlit("/app/lib/module_");
    reveal_strlit(".so)\n");
    reveal_strlit(".so");
    assert(" func_"@ =~= seq![' '] + "func_"@);
    assert(" (/app/lib/module_"@ =~= seq![' ', '('] + "/app/lib/module_"@);
    assert(".so)\n"@ =~= ".so"@ + seq![')', '\n']);
    assert("\t"@ =~= seq!['\t']);
    let symbol = "func_"@ + number;
    let dso = "/app/lib/module_"@ + module + ".so"@;
    let rest = symbol + seq![' ', '('] + dso + seq![')'];
    assert(frame_line_spec(function) =~= (seq!['\t'] + (addr.push(' ') + rest)).push('\n'));
}

/// The name of a function and its module are as a frame line has them.
proof fn lemma_frame_names(number: Seq<char>, module: Seq<char>)
    requires
        number.len() > 0,
        forall|i: int|
            0 <= i < number.len() ==> ('0' <= #[trigger] number[i] <= '9' || 'a' <= number[i]
                <= 'f'),
        forall|i: int|
            0 <= i < module.len() ==> ('0' <= #[trigger] module[i] <= '9' || 'a' <= module[i]
                <= 'f'),
    ensures
        ({
            let symbol = "func_"@ + number;
            let dso = "/app/lib/module_"@ + module + ".so"@;
            &&& is_trimmed(symbol)
            &&& lacks(symbol, '+')
            &&& symbol != "[unknown]"@
            &&& is_trimmed(dso)
            &&& dso.last() != ')'
            &&& dso != "[unknown]"@
            &&& forall|i: int|
                0 <= i < dso.len() - 1 ==> !(#[trigger] dso[i] == ' ' && dso[i + 1] == '(')
        }),
{
    reveal_strlit("func_");
    reveal_strlit("/app/lib/module_");
    reveal_strlit(".so");
    reveal_strlit("[unknown]");
    let symbol = "func_"@ + number;
    let dso = "/app/lib/module_"@ + module + ".so"@;
    assert(symbol[0] == 'f');
    assert(symbol.last() == number[number.len() - 1]);
    assert forall|i: int| 0 <= i < symbol.len() implies #[trigger] symbol[i] != '+' by {
        if i >= 5 {
            assert(symbol[i] == number[i - 5]);
        }
    }
    assert(dso[0] == '/');
    assert(dso.last() == 'o');
    assert forall|i: int| 0 <= i < dso.len() - 1 implies !(#[trigger] dso[i] == ' ' && dso[i + 1]
        == '(') by {
        if 16 <= i < 16 + module.len() {
            assert(dso[i] == module[i - 16]);
        }
    }
    assert("[unknown]"@[0] == '[');
}

/// A line that was generated for a frame reads back as that frame: the padded address, the
/// name with the function's number, and the module that the function is in.
pub proof fn law_generated_frames_read_back(function: usize, options: Options)
    requires
        function < FUNCTIONS,
    ensures
        ({
            let line = frame_line_spec(function);
            let frame = frame_of(line.drop_last(), options);
            let number = zero_padded(decimal(function as nat), 4);
            let module = zero_padded(decimal((function % 50) as nat), 2);
            &&& line.last() == '\n'
            &&& frame is Some
            &&& frame->0.symbol == Some("func_"@ + number)
            &&& frame->0.dso == Some("/app/lib/module_"@ + module + ".so"@)
            &&& positional(frame->0.ip.skip(2), 16) == 0x400000 + function * 0x40
            &&& positional(number, 10) == function
            &&& positional(module, 10) == function % 50
        }),
{
    let address = (0x400000 + function * 0x40) as nat;
    let addr = zero_padded(digits(address, 16), 12);
    let number = zero_padded(decimal(function as nat), 4);
    let module = zero_padded(decimal((function % 50) as nat), 2);
    law_hexadecimal(address);
    law_decimal(function as nat);
    law_decimal((function % 50) as nat);
    law_zero_padded(digits(address, 16), 12);
    law_zero_padded(decimal(function as nat), 4);
    law_zero_padded(decimal((function % 50) as nat), 2);
    lemma_padded_digits(digits(address, 16), 12);
    lemma_padded_digits(decimal(function as nat), 4);
    lemma_padded_digits(decimal((function % 50) as nat), 2);
    lemma_frame_names(number, module);
    lemma_frame_line(function);
    let symbol = "func_"@ + number;
    let dso = "/app/lib/module_"@ + module + ".so"@;
    let rest = symbol + seq![' ', '('] + dso + seq![')'];
    let line = seq!['\t'] + (addr.push(' ') + rest);
    assert(line.push('\n').drop_last() =~= line);
    assert forall|i: int| 0 <= i < addr.len() implies !is_space(#[trigger] addr[i]) by {
        assert('0' <= addr[i] <= '9' || 'a' <= addr[i] <= 'f');
    }
    assert('0' <= addr[1] <= '9' || 'a' <= addr[1] <= 'f');
    assert(is_space('\t'));
    law_frame_reads_back(seq!['\t'], addr, symbol, dso, options);
    law_other_symbols_stay(symbol, seq!['z'], 0);
    assert((seq!['0', 'x'] + addr).skip(2) =~= addr);
}

/// The program goes down to the depth that the random numbers give, from eight frames to
/// forty-seven, unless it is deeper already or comes to the last function before.
pub proof fn law_walk_depth(w: WalkModel)
    requires
        2 <= w.stack.len(),
    ensures
        ({
            let r1 = shifted(w.random);
            let left = if w.stack.len() - r1 % 4 < 2 {
                2
            } else {
                w.stack.len() - r1 % 4
            };
            let depth = 8 + shifted(r1) % 40;
            let n = walked(w).stack.len();
            &&& left >= depth ==> n == left
            &&& left < depth ==> left < n <= depth && (n == depth || walked(w).stack.last()
                == FUNCTIONS - 1)
        }),
{
    let r1 = shifted(w.random);
    let r2 = shifted(r1);
    let top = unwound(w.stack, (r1 % 4) as int);
    lemma_depth(top, r2, (8 + r2 % 40) as nat);
}

proof fn lemma_depth(stack: Seq<usize>, random: u64, depth: nat)
    requires
        2 <= stack.len(),
    ensures
        ({
            let after = descended(stack, random, depth).0;
            &&& stack.len() >= depth ==> after == stack
            &&& stack.len() < depth ==> stack.len() < after.len() <= depth && (after.len() == depth
                || after.last() == FUNCTIONS - 1)
        }),
    decreases depth - stack.len(),
{
    if stack.len() < depth {
        let r = shifted(random);
        let child = callee(stack.last(), (1 + r % 80) as u64);
        if child != FUNCTIONS - 1 {
            lemma_depth(stack.push(child), r, depth);
        }
    }
}

} // verus!
