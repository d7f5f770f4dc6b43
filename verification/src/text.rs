//! Text helpers on sequences of characters.
//!
//! The parsers and reports work on slices of `char`; every function here is
//! specified over the mathematical sequence of characters that a string holds.

use vstd::prelude::*;
use vstd::slice::slice_subrange;

verus! {

/// `String::push` appends a character: the string then holds what it held before,
/// and after that the character.
pub assume_specification[ String::push ](s: &mut String, c: char)
    ensures
        final(s)@ == old(s)@.push(c),
;

/// The characters with the Unicode `White_Space` property.
pub open spec fn is_space(c: char) -> bool {
    let n = c as int;
    ||| 0x9 <= n <= 0xd
    ||| n == 0x20
    ||| n == 0x85
    ||| n == 0xa0
    ||| n == 0x1680
    ||| 0x2000 <= n <= 0x200a
    ||| n == 0x2028
    ||| n == 0x2029
    ||| n == 0x202f
    ||| n == 0x205f
    ||| n == 0x3000
}

/// Whether `c` is white space.
pub fn is_whitespace(c: char) -> (r: bool)
    ensures
        r == is_space(c),
{
    let n: u32 = c as u32;
    (0x9 <= n && n <= 0xd) || n == 0x20 || n == 0x85 || n == 0xa0 || n == 0x1680 || (0x2000 <= n
        && n <= 0x200a) || n == 0x2028 || n == 0x2029 || n == 0x202f || n == 0x205f || n == 0x3000
}

/// The characters of `s`, in order.
pub fn chars_of(s: &str) -> (r: Vec<char>)
    ensures
        r@ == s@,
{
    let mut out: Vec<char> = Vec::new();
    for c in it: s.chars()
        invariant
            it.seq() == s@,
            out@ == s@.take(it.index() as int),
    {
        out.push(c);
    }
    out
}

/// The string made of the characters of `chars`.
pub fn string_of(chars: &[char]) -> (r: String)
    ensures
        r@ == chars@,
{
    let mut out = String::new();
    let n = chars.len();
    for i in 0..n
        invariant
            n == chars@.len(),
            out@ == chars@.take(i as int),
    {
        out.push(chars[i]);
    }
    out
}

// ---------------------------------------------------------------------------
// Trimming
// ---------------------------------------------------------------------------

/// `s` without its leading white space.
pub open spec fn trim_start_spec(s: Seq<char>) -> Seq<char>
    decreases s.len(),
{
    if s.len() > 0 && is_space(s[0]) {
        trim_start_spec(s.skip(1))
    } else {
        s
    }
}

/// `s` without its trailing white space.
pub open spec fn trim_end_spec(s: Seq<char>) -> Seq<char>
    decreases s.len(),
{
    if s.len() > 0 && is_space(s.last()) {
        trim_end_spec(s.drop_last())
    } else {
        s
    }
}

/// `s` without the white space around it.
pub open spec fn trim_spec(s: Seq<char>) -> Seq<char> {
    trim_end_spec(trim_start_spec(s))
}

/// Removes leading white space.
pub fn trim_start(s: &[char]) -> (r: &[char])
    ensures
        r@ == trim_start_spec(s@),
        r@.len() <= s@.len(),
{
    let n = s.len();
    let mut i: usize = 0;
    assert(s@.skip(0) =~= s@);
    while i < n && is_whitespace(s[i])
        invariant
            i <= n == s@.len(),
            trim_start_spec(s@) == trim_start_spec(s@.skip(i as int)),
        decreases n - i,
    {
        assert(s@.skip(i as int).skip(1) =~= s@.skip(i as int + 1));
        i += 1;
    }
    assert(s@.skip(i as int) =~= s@.subrange(i as int, n as int));
    slice_subrange(s, i, n)
}

/// Removes trailing white space.
pub fn trim_end(s: &[char]) -> (r: &[char])
    ensures
        r@ == trim_end_spec(s@),
        r@.len() <= s@.len(),
{
    let mut n = s.len();
    assert(s@.take(n as int) =~= s@);
    while n > 0 && is_whitespace(s[n - 1])
        invariant
            n <= s@.len(),
            trim_end_spec(s@) == trim_end_spec(s@.take(n as int)),
        decreases n,
    {
        assert(s@.take(n as int).drop_last() =~= s@.take(n as int - 1));
        n -= 1;
    }
    assert(s@.take(n as int) =~= s@.subrange(0, n as int));
    slice_subrange(s, 0, n)
}

/// Removes the white space around `s`.
pub fn trim(s: &[char]) -> (r: &[char])
    ensures
        r@ == trim_spec(s@),
        r@.len() <= s@.len(),
{
    trim_end(trim_start(s))
}

/// Trimming the end first does not change what trimming both ends gives.
pub proof fn lemma_trim_of_trim_end(s: Seq<char>)
    ensures
        trim_spec(trim_end_spec(s)) == trim_spec(s),
    decreases s.len(),
{
    if s.len() > 0 && is_space(s.last()) {
        lemma_trim_of_trim_end(s.drop_last());
        lemma_trim_drop_last(s);
    } else {
    }
}

/// A trailing white-space character does not show after trimming.
proof fn lemma_trim_drop_last(s: Seq<char>)
    requires
        s.len() > 0,
        is_space(s.last()),
    ensures
        trim_spec(s.drop_last()) == trim_spec(s),
    decreases s.len(),
{
    if is_space(s[0]) {
        if s.len() == 1 {
            assert(s.skip(1) =~= Seq::<char>::empty());
            assert(s.drop_last() =~= Seq::<char>::empty());
        } else {
            lemma_trim_drop_last(s.skip(1));
            assert(s.skip(1).drop_last() =~= s.drop_last().skip(1));
        }
    } else {
        assert(s.drop_last().len() > 0);
        assert(s.drop_last()[0] == s[0]);
    }
}

// ---------------------------------------------------------------------------
// Searching and splitting
// ---------------------------------------------------------------------------

/// Index of the first white-space character of `s`, or its length.
pub open spec fn first_space(s: Seq<char>) -> int
    decreases s.len(),
{
    if s.len() == 0 || is_space(s[0]) {
        0
    } else {
        1 + first_space(s.skip(1))
    }
}

/// Index of the first `c` of `s`, or its length.
pub open spec fn first_char(s: Seq<char>, c: char) -> int
    decreases s.len(),
{
    if s.len() == 0 || s[0] == c {
        0
    } else {
        1 + first_char(s.skip(1), c)
    }
}

pub proof fn lemma_first_space(s: Seq<char>)
    ensures
        0 <= first_space(s) <= s.len(),
        forall|i: int| 0 <= i < first_space(s) ==> !is_space(#[trigger] s[i]),
        first_space(s) < s.len() ==> is_space(s[first_space(s)]),
    decreases s.len(),
{
    if s.len() == 0 || is_space(s[0]) {
    } else {
        lemma_first_space(s.skip(1));
        assert forall|i: int| 0 <= i < first_space(s) implies !is_space(#[trigger] s[i]) by {
            if i > 0 {
                assert(s[i] == s.skip(1)[i - 1]);
            }
        }
    }
}

pub proof fn lemma_first_char(s: Seq<char>, c: char)
    ensures
        0 <= first_char(s, c) <= s.len(),
        forall|i: int| 0 <= i < first_char(s, c) ==> #[trigger] s[i] != c,
        first_char(s, c) < s.len() ==> s[first_char(s, c)] == c,
    decreases s.len(),
{
    if s.len() == 0 || s[0] == c {
    } else {
        lemma_first_char(s.skip(1), c);
        assert forall|i: int| 0 <= i < first_char(s, c) implies #[trigger] s[i] != c by {
            if i > 0 {
                assert(s[i] == s.skip(1)[i - 1]);
            }
        }
    }
}

/// Position of the first white space, or the length.
pub fn find_space(s: &[char]) -> (r: usize)
    ensures
        r == first_space(s@),
        r <= s@.len(),
{
    let n = s.len();
    let mut i: usize = 0;
    assert(s@.skip(0) =~= s@);
    while i < n && !is_whitespace(s[i])
        invariant
            i <= n == s@.len(),
            first_space(s@) == i + first_space(s@.skip(i as int)),
        decreases n - i,
    {
        assert(s@.skip(i as int).skip(1) =~= s@.skip(i as int + 1));
        i += 1;
    }
    i
}

/// Position of the first `c`, or the length.
pub fn find_char(s: &[char], c: char) -> (r: usize)
    ensures
        r == first_char(s@, c),
        r <= s@.len(),
{
    let n = s.len();
    let mut i: usize = 0;
    assert(s@.skip(0) =~= s@);
    while i < n && s[i] != c
        invariant
            i <= n == s@.len(),
            first_char(s@, c) == i + first_char(s@.skip(i as int), c),
        decreases n - i,
    {
        assert(s@.skip(i as int).skip(1) =~= s@.skip(i as int + 1));
        i += 1;
    }
    i
}

/// `pat` stands in `s` at position `i`.
pub open spec fn occurs_at(s: Seq<char>, pat: Seq<char>, i: int) -> bool {
    0 <= i && i + pat.len() <= s.len() && s.subrange(i, i + pat.len()) == pat
}

/// `pat` stands somewhere in `s`.
pub open spec fn occurs_in(s: Seq<char>, pat: Seq<char>) -> bool {
    exists|i: int| occurs_at(s, pat, i)
}

/// Whether `pat` stands in `s` at position `i`.
pub fn is_at(s: &[char], pat: &[char], i: usize) -> (r: bool)
    ensures
        r == occurs_at(s@, pat@, i as int),
{
    let m = pat.len();
    let n = s.len();
    if n < m || n - m < i {
        return false;
    }
    let mut k: usize = 0;
    while k < m
        invariant
            k <= m == pat@.len(),
            n == s@.len(),
            i + m <= n,
            forall|j: int| 0 <= j < k ==> s@[i + j] == pat@[j],
        decreases m - k,
    {
        if s[i + k] != pat[k] {
            assert(s@.subrange(i as int, i + m)[k as int] == s@[i + k]);
            return false;
        }
        k += 1;
    }
    assert(s@.subrange(i as int, i + m) =~= pat@);
    true
}

/// Whether `pat` stands somewhere in `s`.
pub fn contains(s: &[char], pat: &[char]) -> (r: bool)
    ensures
        r == occurs_in(s@, pat@),
{
    let n = s.len();
    let mut i: usize = 0;
    loop
        invariant
            i <= n == s@.len(),
            forall|j: int| 0 <= j < i ==> !occurs_at(s@, pat@, j),
        decreases n - i,
    {
        if is_at(s, pat, i) {
            return true;
        }
        if i == n {
            assert forall|j: int| !occurs_at(s@, pat@, j) by {
                if j > n {
                }
            }
            return false;
        }
        i += 1;
    }
}

/// Position of the last occurrence of `pat` in `s`, if any.
pub open spec fn last_occurrence(s: Seq<char>, pat: Seq<char>) -> Option<int> {
    if occurs_in(s, pat) {
        Some(choose|i: int| is_last_at(s, pat, i))
    } else {
        None
    }
}

/// `pat` stands in `s` at position `i` and at none after it.
pub open spec fn is_last_at(s: Seq<char>, pat: Seq<char>, i: int) -> bool {
    occurs_at(s, pat, i) && forall|j: int| i < j ==> !occurs_at(s, pat, j)
}

/// Finds the last occurrence of `pat`.
pub fn rfind(s: &[char], pat: &[char]) -> (r: Option<usize>)
    ensures
        (match r {
            Some(i) => last_occurrence(s@, pat@) == Some(i as int) && is_last_at(
                s@,
                pat@,
                i as int,
            ),
            None => last_occurrence(s@, pat@) is None,
        }),
{
    let n = s.len();
    let mut i: usize = n;
    loop
        invariant
            i <= n == s@.len(),
            forall|j: int| i < j ==> !occurs_at(s@, pat@, j),
        decreases i,
    {
        if is_at(s, pat, i) {
            assert(is_last_at(s@, pat@, i as int));
            let ghost c = choose|k: int| is_last_at(s@, pat@, k);
            assert(is_last_at(s@, pat@, c));
            assert(c == i);
            return Some(i);
        }
        if i == 0 {
            assert(forall|j: int| !occurs_at(s@, pat@, j));
            return None;
        }
        i -= 1;
    }
}

/// The maximal runs of non-space characters of `s`, in order.
pub open spec fn words(s: Seq<char>) -> Seq<Seq<char>>
    decreases s.len(),
    via words_decreases
{
    let t = trim_start_spec(s);
    if t.len() == 0 {
        Seq::empty()
    } else {
        seq![t.take(first_space(t))] + words(t.skip(first_space(t)))
    }
}

#[via_fn]
proof fn words_decreases(s: Seq<char>) {
    lemma_trim_start(s);
    lemma_first_space(trim_start_spec(s));
}

/// What trimming the start leaves is a suffix that starts with no white space.
pub proof fn lemma_trim_start(s: Seq<char>)
    ensures
        trim_start_spec(s).len() <= s.len(),
        trim_start_spec(s).len() > 0 ==> !is_space(trim_start_spec(s)[0]),
        trim_start_spec(s) == s.skip(s.len() - trim_start_spec(s).len()),
    decreases s.len(),
{
    if s.len() > 0 && is_space(s[0]) {
        lemma_trim_start(s.skip(1));
        let t = trim_start_spec(s);
        assert(s.skip(1).skip(s.skip(1).len() - t.len()) =~= s.skip(s.len() - t.len()));
    } else {
        assert(s.skip(0) =~= s);
    }
}

/// The views of a list of strings.
pub open spec fn views(list: Seq<String>) -> Seq<Seq<char>> {
    list.map_values(|s: String| s@)
}

/// The words of `s`.
pub fn split_whitespace(s: &[char]) -> (r: Vec<String>)
    ensures
        views(r@) == words(s@),
{
    let mut out: Vec<String> = Vec::new();
    let mut rest: &[char] = s;
    assert(views(out@) + words(rest@) =~= words(s@));
    loop
        invariant
            views(out@) + words(rest@) == words(s@),
        decreases rest@.len(),
    {
        let t = trim_start(rest);
        if t.len() == 0 {
            assert(words(rest@) =~= Seq::<Seq<char>>::empty());
            assert(views(out@) =~= words(s@));
            return out;
        }
        let i = find_space(t);
        let n = t.len();
        proof {
            lemma_trim_start(rest@);
            lemma_first_space(t@);
            assert(t@.subrange(0, i as int) =~= t@.take(i as int));
            assert(t@.subrange(i as int, n as int) =~= t@.skip(i as int));
        }
        let ghost before = out@;
        let word = string_of(slice_subrange(t, 0, i));
        out.push(word);
        rest = slice_subrange(t, i, n);
        assert(views(out@) =~= views(before).push(word@));
        assert(views(out@) + words(rest@) =~= words(s@));
    }
}

/// The line without one carriage return at its end.
pub open spec fn strip_cr(line: Seq<char>) -> Seq<char> {
    if line.len() > 0 && line.last() == '\r' {
        line.drop_last()
    } else {
        line
    }
}

/// The lines of a text: each ends at `\n` or `\r\n`, the last also at the end of
/// the text, where it is not empty.
pub open spec fn lines_spec(s: Seq<char>) -> Seq<Seq<char>>
    decreases s.len(),
    via lines_decreases
{
    if s.len() == 0 {
        Seq::empty()
    } else if first_char(s, '\n') < s.len() {
        seq![strip_cr(s.take(first_char(s, '\n')))] + lines_spec(s.skip(first_char(s, '\n') + 1))
    } else {
        seq![s]
    }
}

#[via_fn]
proof fn lines_decreases(s: Seq<char>) {
    lemma_first_char(s, '\n');
}

/// The lines of a text.
pub fn lines(s: &[char]) -> (r: Vec<String>)
    ensures
        views(r@) == lines_spec(s@),
{
    let mut out: Vec<String> = Vec::new();
    let mut rest: &[char] = s;
    assert(views(out@) + lines_spec(rest@) =~= lines_spec(s@));
    loop
        invariant
            views(out@) + lines_spec(rest@) == lines_spec(s@),
        decreases rest@.len(),
    {
        let n = rest.len();
        if n == 0 {
            assert(views(out@) =~= lines_spec(s@));
            return out;
        }
        let i = find_char(rest, '\n');
        let ghost before = out@;
        if i < n {
            let mut end = i;
            if end > 0 && rest[end - 1] == '\r' {
                end -= 1;
            }
            proof {
                let taken = rest@.take(i as int);
                assert(rest@.subrange(0, end as int) =~= strip_cr(taken));
                assert(rest@.subrange(i + 1, n as int) =~= rest@.skip(i + 1));
            }
            let line = string_of(slice_subrange(rest, 0, end));
            out.push(line);
            rest = slice_subrange(rest, i + 1, n);
            assert(views(out@) =~= views(before).push(line@));
            assert(views(out@) + lines_spec(rest@) =~= lines_spec(s@));
        } else {
            let line = string_of(rest);
            out.push(line);
            assert(views(out@) =~= views(before).push(line@));
            assert(views(out@) =~= lines_spec(s@));
            return out;
        }
    }
}

// ---------------------------------------------------------------------------
// Numbers
// ---------------------------------------------------------------------------

pub open spec fn is_digit(c: char) -> bool {
    '0' <= c && c <= '9'
}

pub open spec fn is_hex_digit(c: char) -> bool {
    ('0' <= c && c <= '9') || ('a' <= c && c <= 'f') || ('A' <= c && c <= 'F')
}

pub open spec fn all_digits(s: Seq<char>) -> bool {
    forall|i: int| 0 <= i < s.len() ==> is_digit(#[trigger] s[i])
}

/// The number that a string of decimal digits writes.
pub open spec fn decimal_value(s: Seq<char>) -> nat
    decreases s.len(),
{
    if s.len() == 0 {
        0
    } else {
        decimal_value(s.drop_last()) * 10 + (s.last() as int - '0' as int) as nat
    }
}

/// `s` without one leading plus sign.
pub open spec fn unsigned_part(s: Seq<char>) -> Seq<char> {
    if s.len() > 0 && s[0] == '+' {
        s.skip(1)
    } else {
        s
    }
}

/// The number that `s` writes in decimal, when it is at most `max`: an optional
/// plus sign and at least one digit.
pub open spec fn parsed_number(s: Seq<char>, max: nat) -> Option<nat> {
    let d = unsigned_part(s);
    if d.len() > 0 && all_digits(d) && decimal_value(d) <= max {
        Some(decimal_value(d))
    } else {
        None
    }
}

/// Longer digit strings write no smaller numbers.
proof fn lemma_decimal_value_grows(s: Seq<char>, i: int)
    requires
        0 <= i <= s.len(),
    ensures
        decimal_value(s.take(i)) <= decimal_value(s),
    decreases s.len() - i,
{
    if i < s.len() {
        lemma_decimal_value_grows(s, i + 1);
        assert(s.take(i + 1).drop_last() =~= s.take(i));
    } else {
        assert(s.take(i) =~= s);
    }
}

/// Parses a decimal `u64`.
pub fn parse_u64(s: &[char]) -> (r: Option<u64>)
    ensures
        (match r {
            Some(v) => parsed_number(s@, u64::MAX as nat) == Some(v as nat),
            None => parsed_number(s@, u64::MAX as nat) is None,
        }),
{
    let n = s.len();
    let start: usize = if n > 0 && s[0] == '+' {
        1
    } else {
        0
    };
    let ghost d = unsigned_part(s@);
    assert(d =~= s@.skip(start as int));
    if start == n {
        return None;
    }
    let mut v: u64 = 0;
    let mut i: usize = start;
    assert(d.take(0) =~= Seq::<char>::empty());
    while i < n
        invariant
            start <= i <= n == s@.len(),
            start <= 1,
            d == unsigned_part(s@),
            d == s@.skip(start as int),
            d.len() == n - start,
            forall|k: int| 0 <= k < i - start ==> is_digit(#[trigger] d[k]),
            v == decimal_value(d.take(i - start)),
        decreases n - i,
    {
        let c = s[i];
        let ghost k = i - start;
        assert(d[k] == c);
        if !('0' <= c && c <= '9') {
            assert(!is_digit(d[k]));
            return None;
        }
        let digit: u64 = (c as u32 - '0' as u32) as u64;
        proof {
            assert(d.take(k + 1).drop_last() =~= d.take(k));
            assert(d.take(k + 1).last() == c);
            lemma_decimal_value_grows(d, k + 1);
        }
        if v > (u64::MAX - digit) / 10 {
            assert(decimal_value(d.take(k + 1)) > u64::MAX);
            return None;
        }
        v = v * 10 + digit;
        i += 1;
    }
    assert(d.take(n - start) =~= d);
    Some(v)
}

/// Parses a decimal `usize`.
pub fn parse_usize(s: &[char]) -> (r: Option<usize>)
    ensures
        (match r {
            Some(v) => parsed_number(s@, usize::MAX as nat) == Some(v as nat),
            None => parsed_number(s@, usize::MAX as nat) is None,
        }),
{
    match parse_u64(s) {
        Some(v) => {
            if v <= usize::MAX as u64 {
                Some(v as usize)
            } else {
                None
            }
        },
        None => None,
    }
}

/// The character that writes the digit `d` (below sixteen).
pub open spec fn digit_char(d: int) -> char {
    if d < 10 {
        ('0' as int + d) as char
    } else {
        ('a' as int + (d - 10)) as char
    }
}

/// `n` written in base `base`, without leading zeros.
pub open spec fn digits(n: nat, base: nat) -> Seq<char>
    decreases n,
{
    if n < base || base < 2 {
        seq![digit_char(n as int)]
    } else {
        proof {
            assert(n / base < n) by (nonlinear_arith)
                requires
                    2 <= base <= n,
            ;
        }
        digits(n / base, base).push(digit_char((n % base) as int))
    }
}

/// `n` written in decimal.
pub open spec fn decimal(n: nat) -> Seq<char> {
    digits(n, 10)
}

pub fn digit_of(d: u64) -> (c: char)
    requires
        d < 16,
    ensures
        c == digit_char(d as int),
{
    let b: u8 = d as u8;
    if b < 10 {
        (48u8 + b) as char
    } else {
        (97u8 + (b - 10u8)) as char
    }
}

/// Appends `n`, written in base `base`, to `out`.
fn push_digits(out: &mut String, n: u64, base: u64)
    requires
        2 <= base <= 16,
    ensures
        final(out)@ == old(out)@ + digits(n as nat, base as nat),
    decreases n,
{
    let ghost start = out@;
    if n < base {
        out.push(digit_of(n));
        assert(out@ =~= start + digits(n as nat, base as nat));
    } else {
        assert(n / base < n) by (nonlinear_arith)
            requires
                2 <= base <= n,
        ;
        push_digits(out, n / base, base);
        let rem: u64 = n % base;
        assert(rem < base);
        out.push(digit_of(rem));
        assert(out@ =~= start + digits(n as nat, base as nat));
    }
}

/// Appends `n` in decimal.
pub fn push_decimal(out: &mut String, n: u64)
    ensures
        final(out)@ == old(out)@ + decimal(n as nat),
{
    push_digits(out, n, 10);
}

/// Appends `n` in lower-case hexadecimal.
pub fn push_hex(out: &mut String, n: u64)
    ensures
        final(out)@ == old(out)@ + digits(n as nat, 16),
{
    push_digits(out, n, 16);
}

/// `s` starts with a sign.
pub open spec fn has_sign(s: Seq<char>) -> bool {
    s.len() > 0 && (s[0] == '+' || s[0] == '-')
}

/// `s` without one leading sign.
pub open spec fn after_sign(s: Seq<char>) -> Seq<char> {
    if has_sign(s) {
        s.skip(1)
    } else {
        s
    }
}

/// The ASCII letter in lower case; any other character as it is.
pub open spec fn lower(c: char) -> char {
    if 'A' <= c && c <= 'Z' {
        (c as int + 32) as char
    } else {
        c
    }
}

/// `s` writes the lower-case word `word`, in letters of either case.
pub open spec fn spells(s: Seq<char>, word: Seq<char>) -> bool {
    s.len() == word.len() && forall|i: int| 0 <= i < s.len() ==> lower(#[trigger] s[i]) == word[i]
}

/// A string of digits with at most one point in it, and at least one digit.
pub open spec fn is_mantissa(s: Seq<char>) -> bool {
    let p = first_char(s, '.');
    if p < s.len() {
        all_digits(s.take(p)) && all_digits(s.skip(p + 1)) && s.len() >= 2
    } else {
        all_digits(s) && s.len() >= 1
    }
}

/// A number with an optional exponent that starts at position `e`.
pub open spec fn is_number_with(s: Seq<char>, e: int) -> bool {
    if e < s.len() {
        is_mantissa(s.take(e)) && all_digits(after_sign(s.skip(e + 1))) && after_sign(
            s.skip(e + 1),
        ).len() >= 1
    } else {
        is_mantissa(s)
    }
}

/// Position of the first `e` or `E` of `s`, or its length.
pub open spec fn exponent_at(s: Seq<char>) -> int {
    let a = first_char(s, 'e');
    let b = first_char(s, 'E');
    if a < b {
        a
    } else {
        b
    }
}

/// The texts that write a floating-point number: an optional sign, then `inf`,
/// `infinity` or `nan` in any case, or digits with an optional point and an
/// optional exponent.
pub open spec fn is_float_text(s: Seq<char>) -> bool {
    let t = after_sign(s);
    ||| spells(t, seq!['i', 'n', 'f'])
    ||| spells(t, seq!['i', 'n', 'f', 'i', 'n', 'i', 't', 'y'])
    ||| spells(t, seq!['n', 'a', 'n'])
    ||| is_number_with(t, exponent_at(t))
}

fn are_digits(s: &[char]) -> (r: bool)
    ensures
        r == all_digits(s@),
{
    let n = s.len();
    for i in 0..n
        invariant
            n == s@.len(),
            forall|k: int| 0 <= k < i ==> is_digit(#[trigger] s@[k]),
    {
        if !('0' <= s[i] && s[i] <= '9') {
            assert(!is_digit(s@[i as int]));
            return false;
        }
    }
    true
}

fn lower_of(c: char) -> (r: char)
    ensures
        r == lower(c),
{
    if 'A' <= c && c <= 'Z' {
        let b: u8 = c as u8;
        (b + 32u8) as char
    } else {
        c
    }
}

fn does_spell(s: &[char], word: &[char]) -> (r: bool)
    ensures
        r == spells(s@, word@),
{
    let n = s.len();
    if n != word.len() {
        return false;
    }
    for i in 0..n
        invariant
            n == s@.len() == word@.len(),
            forall|k: int| 0 <= k < i ==> lower(#[trigger] s@[k]) == word@[k],
    {
        if lower_of(s[i]) != word[i] {
            assert(lower(s@[i as int]) != word@[i as int]);
            return false;
        }
    }
    true
}

fn skip_sign(s: &[char]) -> (r: &[char])
    ensures
        r@ == after_sign(s@),
{
    let n = s.len();
    if n > 0 && (s[0] == '+' || s[0] == '-') {
        assert(s@.subrange(1, n as int) =~= s@.skip(1));
        slice_subrange(s, 1, n)
    } else {
        s
    }
}

fn mantissa_ok(s: &[char]) -> (r: bool)
    ensures
        r == is_mantissa(s@),
{
    let n = s.len();
    let p = find_char(s, '.');
    if p < n {
        assert(s@.subrange(0, p as int) =~= s@.take(p as int));
        assert(s@.subrange(p + 1, n as int) =~= s@.skip(p + 1));
        are_digits(slice_subrange(s, 0, p)) && are_digits(slice_subrange(s, p + 1, n)) && n >= 2
    } else {
        are_digits(s) && n >= 1
    }
}

/// Whether `s` writes a floating-point number.
pub fn is_float(s: &[char]) -> (r: bool)
    ensures
        r == is_float_text(s@),
{
    let t = skip_sign(s);
    let inf: [char; 3] = ['i', 'n', 'f'];
    let infinity: [char; 8] = ['i', 'n', 'f', 'i', 'n', 'i', 't', 'y'];
    let nan: [char; 3] = ['n', 'a', 'n'];
    assert(inf@ =~= seq!['i', 'n', 'f']);
    assert(infinity@ =~= seq!['i', 'n', 'f', 'i', 'n', 'i', 't', 'y']);
    assert(nan@ =~= seq!['n', 'a', 'n']);
    if does_spell(t, &inf) || does_spell(t, &infinity) || does_spell(t, &nan) {
        return true;
    }
    let n = t.len();
    let a = find_char(t, 'e');
    let b = find_char(t, 'E');
    let e = if a < b {
        a
    } else {
        b
    };
    if e < n {
        assert(t@.subrange(0, e as int) =~= t@.take(e as int));
        assert(t@.subrange(e + 1, n as int) =~= t@.skip(e + 1));
        let exponent = skip_sign(slice_subrange(t, e + 1, n));
        mantissa_ok(slice_subrange(t, 0, e)) && are_digits(exponent) && exponent.len() >= 1
    } else {
        mantissa_ok(t)
    }
}

// ---------------------------------------------------------------------------
// Composing
// ---------------------------------------------------------------------------

/// `n` spaces.
pub open spec fn spaces(n: nat) -> Seq<char> {
    Seq::new(n, |i: int| ' ')
}

/// `s` aligned to the right in a column of `width` characters.
pub open spec fn padded(s: Seq<char>, width: nat) -> Seq<char> {
    if s.len() < width {
        spaces((width - s.len()) as nat) + s
    } else {
        s
    }
}

/// Appends `n` spaces.
pub fn push_spaces(out: &mut String, n: usize)
    ensures
        final(out)@ == old(out)@ + spaces(n as nat),
{
    let ghost start = out@;
    for i in 0..n
        invariant
            out@ =~= start + spaces(i as nat),
    {
        out.push(' ');
    }
}

/// Appends `s` aligned to the right in a column of `width` characters.
pub fn push_padded(out: &mut String, s: &str, width: usize)
    ensures
        final(out)@ == old(out)@ + padded(s@, width as nat),
{
    let ghost start = out@;
    let n = s.unicode_len();
    if n < width {
        push_spaces(out, width - n);
    }
    out.append(s);
    assert(out@ =~= start + padded(s@, width as nat));
}

/// The strings of `list` with `sep` between them.
pub open spec fn joined(list: Seq<Seq<char>>, sep: Seq<char>) -> Seq<char>
    decreases list.len(),
{
    if list.len() == 0 {
        Seq::empty()
    } else if list.len() == 1 {
        list[0]
    } else {
        joined(list.drop_last(), sep) + sep + list.last()
    }
}

/// Joins the first `n` strings of `list` with `sep` between them.
pub fn join(list: &Vec<String>, n: usize, sep: &str) -> (r: String)
    requires
        n <= list@.len(),
    ensures
        r@ == joined(views(list@).take(n as int), sep@),
{
    let mut out = String::new();
    let ghost all = views(list@);
    assert(out@ =~= joined(all.take(0), sep@));
    for i in 0..n
        invariant
            n <= list@.len(),
            all == views(list@),
            out@ == joined(all.take(i as int), sep@),
    {
        if i > 0 {
            out.append(sep);
        }
        out.append(list[i].as_str());
        proof {
            assert(all.take(i + 1).drop_last() =~= all.take(i as int));
            assert(all.take(i + 1).last() == list@[i as int]@);
            assert(out@ =~= joined(all.take(i + 1), sep@));
        }
    }
    out
}

// ---------------------------------------------------------------------------
// Comparing
// ---------------------------------------------------------------------------

/// Lexicographic order by code point: `a` comes strictly before `b`.
pub open spec fn text_before(a: Seq<char>, b: Seq<char>) -> bool
    decreases a.len(),
{
    if b.len() == 0 {
        false
    } else if a.len() == 0 {
        true
    } else {
        (a[0] as int) < (b[0] as int) || (a[0] == b[0] && text_before(a.skip(1), b.skip(1)))
    }
}

/// The text that comes first is the start of the other, or has the lesser character where
/// the two first differ.
pub proof fn law_text_before(a: Seq<char>, b: Seq<char>) -> (p: int)
    requires
        text_before(a, b),
    ensures
        0 <= p <= a.len(),
        p < b.len(),
        a.take(p) == b.take(p),
        p < a.len() ==> (a[p] as int) < (b[p] as int),
    decreases a.len(),
{
    if a.len() == 0 || a[0] != b[0] {
        assert(a.take(0) =~= b.take(0));
        0
    } else {
        let q = law_text_before(a.skip(1), b.skip(1));
        assert(a.take(q + 1) =~= seq![a[0]] + a.skip(1).take(q));
        assert(b.take(q + 1) =~= seq![b[0]] + b.skip(1).take(q));
        q + 1
    }
}

/// The order by code point is irreflexive, total and transitive.
pub proof fn lemma_text_order(a: Seq<char>, b: Seq<char>, c: Seq<char>)
    ensures
        !text_before(a, a),
        text_before(a, b) || text_before(b, a) || a == b,
        text_before(a, b) ==> !text_before(b, a),
        text_before(a, b) && text_before(b, c) ==> text_before(a, c),
    decreases a.len() + b.len() + c.len(),
{
    if a.len() > 0 {
        let rest_b = if b.len() > 0 {
            b.skip(1)
        } else {
            b
        };
        let rest_c = if c.len() > 0 {
            c.skip(1)
        } else {
            c
        };
        lemma_text_order(a.skip(1), rest_b, rest_c);
    }
    if b.len() == 0 {
        if a.len() == 0 {
            assert(a =~= b);
        }
    } else if a.len() > 0 && a[0] == b[0] && a.skip(1) == b.skip(1) {
        assert(a =~= seq![a[0]] + a.skip(1));
        assert(b =~= seq![b[0]] + b.skip(1));
    }
}

/// Whether `a` comes strictly before `b`, by code point.
pub fn comes_before(a: &str, b: &str) -> (r: bool)
    ensures
        r == text_before(a@, b@),
{
    let x = chars_of(a);
    let y = chars_of(b);
    let mut i: usize = 0;
    assert(x@.skip(0) =~= x@);
    assert(y@.skip(0) =~= y@);
    loop
        invariant
            i <= x@.len(),
            i <= y@.len(),
            x@ == a@,
            y@ == b@,
            text_before(a@, b@) == text_before(x@.skip(i as int), y@.skip(i as int)),
        decreases x@.len() - i,
    {
        if i >= y.len() {
            return false;
        }
        if i >= x.len() {
            return true;
        }
        let p: char = x[i];
        let q: char = y[i];
        assert(x@.skip(i as int)[0] == p && y@.skip(i as int)[0] == q);
        if p != q {
            return p < q;
        }
        proof {
            assert(x@.skip(i as int).skip(1) =~= x@.skip(i + 1));
            assert(y@.skip(i as int).skip(1) =~= y@.skip(i + 1));
        }
        i += 1;
    }
}

/// Whether two strings hold the same characters.
pub fn same_text(a: &str, b: &str) -> (r: bool)
    ensures
        r == (a@ == b@),
{
    let x = chars_of(a);
    let y = chars_of(b);
    let n = x.len();
    if n != y.len() {
        return false;
    }
    for i in 0..n
        invariant
            n == x@.len() == y@.len(),
            x@ == a@,
            y@ == b@,
            forall|k: int| 0 <= k < i ==> x@[k] == y@[k],
    {
        if x[i] != y[i] {
            assert(a@[i as int] != b@[i as int]);
            return false;
        }
    }
    assert(a@ =~= b@);
    true
}

// ---------------------------------------------------------------------------
// What holds of these texts
// ---------------------------------------------------------------------------

/// The number that digits write in a base: each digit counts as much as the base to the
/// number of digits after it.
pub open spec fn positional(s: Seq<char>, base: int) -> int {
    s.fold_left(
        0int,
        |v: int, c: char|
            v * base + if '0' <= c && c <= '9' {
                c as int - '0' as int
            } else {
                c as int - 'a' as int + 10
            },
    )
}

proof fn lemma_digit_char(d: int)
    requires
        0 <= d < 16,
    ensures
        d < 10 ==> digit_char(d) as int == '0' as int + d,
        d >= 10 ==> digit_char(d) as int == 'a' as int + (d - 10),
{
}

proof fn lemma_digits(n: nat, base: nat)
    requires
        2 <= base <= 16,
    ensures
        positional(digits(n, base), base as int) == n,
        digits(n, base).len() > 0,
        forall|i: int|
            0 <= i < digits(n, base).len() ==> {
                let c = #[trigger] digits(n, base)[i];
                ('0' <= c && c <= '9') || (base > 10 && 'a' <= c && c <= 'f')
            },
        base == 10 ==> all_digits(digits(n, base)),
        n > 0 ==> digits(n, base)[0] != '0',
        n < base ==> digits(n, base).len() == 1,
    decreases n,
{
    let s = digits(n, base);
    if n < base {
        lemma_digit_char(n as int);
        assert(s.drop_last() =~= Seq::<char>::empty());
        let empty = Seq::<char>::empty();
        assert(positional(empty, base as int) == 0);
    } else {
        let q = n / base;
        let r = n % base;
        assert(n == q * base + r && 0 <= r < base && 0 < q < n) by (nonlinear_arith)
            requires
                q == n / base,
                r == n % base,
                2 <= base <= n,
        ;
        lemma_digits(q, base);
        lemma_digit_char(r as int);
        assert(s.drop_last() =~= digits(q, base));
        assert(s.last() == digit_char(r as int));
        assert(positional(s, base as int) == positional(s.drop_last(), base as int) * base + r);
    }
}

/// A number that is written in decimal is written in digits, without leading zeros, and
/// the digits have its value.
pub proof fn law_decimal(n: nat)
    ensures
        positional(decimal(n), 10) == n,
        decimal(n).len() > 0,
        forall|i: int| 0 <= i < decimal(n).len() ==> '0' <= #[trigger] decimal(n)[i] <= '9',
        n > 0 ==> decimal(n)[0] != '0',
        n < 10 ==> decimal(n).len() == 1,
{
    lemma_digits(n, 10);
}

/// The same in hexadecimal, with lower-case letters.
pub proof fn law_hexadecimal(n: nat)
    ensures
        positional(digits(n, 16), 16) == n,
        digits(n, 16).len() > 0,
        forall|i: int|
            0 <= i < digits(n, 16).len() ==> ('0' <= #[trigger] digits(n, 16)[i] <= '9' || 'a'
                <= digits(n, 16)[i] <= 'f'),
        n > 0 ==> digits(n, 16)[0] != '0',
        n < 16 ==> digits(n, 16).len() == 1,
{
    lemma_digits(n, 16);
}

proof fn lemma_decimal_value(s: Seq<char>)
    requires
        forall|i: int| 0 <= i < s.len() ==> '0' <= #[trigger] s[i] <= '9',
    ensures
        decimal_value(s) == positional(s, 10),
    decreases s.len(),
{
    if s.len() > 0 {
        let rest = s.drop_last();
        assert forall|i: int| 0 <= i < rest.len() implies '0' <= #[trigger] rest[i] <= '9' by {
            assert(rest[i] == s[i]);
        }
        lemma_decimal_value(rest);
        assert('0' <= s[s.len() - 1] <= '9');
    }
}

/// A text of digits, with a plus sign before it or not, is read as the number that the
/// digits write, where that is not too large; any other text is no number.
pub proof fn law_parsed_number(s: Seq<char>, max: nat)
    ensures
        (s.len() > 0 && forall|i: int| 0 <= i < s.len() ==> '0' <= #[trigger] s[i] <= '9') ==> {
            &&& parsed_number(s, max) == (if positional(s, 10) <= max {
                Some(positional(s, 10) as nat)
            } else {
                None
            })
            &&& parsed_number(seq!['+'] + s, max) == parsed_number(s, max)
        },
        s.len() == 0 ==> parsed_number(s, max) is None,
        forall|i: int|
            0 < i < s.len() && !('0' <= #[trigger] s[i] <= '9') ==> parsed_number(s, max) is None,
        s.len() > 0 && !('0' <= s[0] <= '9') && s[0] != '+' ==> parsed_number(s, max) is None,
        s.len() == 1 && s[0] == '+' ==> parsed_number(s, max) is None,
{
    if s.len() > 0 && forall|i: int| 0 <= i < s.len() ==> '0' <= #[trigger] s[i] <= '9' {
        lemma_decimal_value(s);
        assert(all_digits(s));
        let t = seq!['+'] + s;
        assert(t[0] == '+');
        assert(t.skip(1) =~= s);
        assert('0' <= s[0] <= '9');
    }
    assert forall|i: int| 0 < i < s.len() && !('0' <= #[trigger] s[i] <= '9') implies parsed_number(
        s,
        max,
    ) is None by {
        if s[0] == '+' {
            assert(s.skip(1)[i - 1] == s[i]);
            assert(!is_digit(s.skip(1)[i - 1]));
        } else {
            assert(!is_digit(s[i]));
        }
    }
    if s.len() > 0 && !('0' <= s[0] <= '9') && s[0] != '+' {
        assert(!is_digit(s[0]));
    }
}

/// A number that was written in decimal is read back as itself.
pub proof fn law_decimal_reads_back(n: nat, max: nat)
    requires
        n <= max,
    ensures
        parsed_number(decimal(n), max) == Some(n),
{
    law_decimal(n);
    law_parsed_number(decimal(n), max);
}

/// Among the ASCII characters the white space is the blank, the tabs and what ends a
/// line or a page.
pub proof fn law_ascii_space(c: char)
    requires
        (c as int) < 0x80,
    ensures
        is_space(c) <==> c == ' ' || c == '\t' || c == '\n' || c == '\r' || c as int == 0xb || c as int
            == 0xc,
{
    if c as int == 0x9 {
        assert(c == '\t');
    }
    if c as int == 0xa {
        assert(c == '\n');
    }
    if c as int == 0xd {
        assert(c == '\r');
    }
    if c as int == 0x20 {
        assert(c == ' ');
    }
}

pub proof fn lemma_trim_start_spaces(a: Seq<char>, b: Seq<char>)
    requires
        forall|i: int| 0 <= i < a.len() ==> is_space(#[trigger] a[i]),
    ensures
        trim_start_spec(a + b) == trim_start_spec(b),
    decreases a.len(),
{
    if a.len() > 0 {
        assert(is_space(a[0]));
        assert((a + b).skip(1) =~= a.skip(1) + b);
        assert forall|i: int| 0 <= i < a.skip(1).len() implies is_space(#[trigger] a.skip(1)[i]) by {
            assert(a.skip(1)[i] == a[i + 1]);
        }
        lemma_trim_start_spaces(a.skip(1), b);
    } else {
        assert(a + b =~= b);
    }
}

/// The other characters that are white space.
pub proof fn law_other_space(c: char)
    requires
        c as int >= 0x80,
    ensures
        is_space(c) <==> seq![
            0x85int,
            0xa0,
            0x1680,
            0x2000,
            0x2001,
            0x2002,
            0x2003,
            0x2004,
            0x2005,
            0x2006,
            0x2007,
            0x2008,
            0x2009,
            0x200a,
            0x2028,
            0x2029,
            0x202f,
            0x205f,
            0x3000,
        ].contains(c as int),
{
    let all = seq![
        0x85int,
        0xa0,
        0x1680,
        0x2000,
        0x2001,
        0x2002,
        0x2003,
        0x2004,
        0x2005,
        0x2006,
        0x2007,
        0x2008,
        0x2009,
        0x200a,
        0x2028,
        0x2029,
        0x202f,
        0x205f,
        0x3000,
    ];
    let n = c as int;
    assert(all[0] == 0x85 && all[1] == 0xa0 && all[2] == 0x1680 && all[3] == 0x2000 && all[4]
        == 0x2001 && all[5] == 0x2002 && all[6] == 0x2003 && all[7] == 0x2004 && all[8] == 0x2005
        && all[9] == 0x2006 && all[10] == 0x2007 && all[11] == 0x2008 && all[12] == 0x2009
        && all[13] == 0x200a && all[14] == 0x2028 && all[15] == 0x2029 && all[16] == 0x202f
        && all[17] == 0x205f && all[18] == 0x3000);
    if is_space(c) {
        assert(all.contains(n));
    }
}

proof fn lemma_trim_start_cuts(s: Seq<char>)
    ensures
        forall|i: int|
            0 <= i < s.len() - trim_start_spec(s).len() ==> is_space(#[trigger] s[i]),
    decreases s.len(),
{
    if s.len() > 0 && is_space(s[0]) {
        lemma_trim_start_cuts(s.skip(1));
        assert forall|i: int| 0 <= i < s.len() - trim_start_spec(s).len() implies is_space(
            #[trigger] s[i],
        ) by {
            if i > 0 {
                assert(s[i] == s.skip(1)[i - 1]);
            }
        }
    }
}

/// A word that stands alone is the only word of its text.
pub proof fn law_word_alone(w: Seq<char>)
    requires
        w.len() > 0,
        forall|i: int| 0 <= i < w.len() ==> !is_space(#[trigger] w[i]),
    ensures
        words(w) == seq![w],
{
    lemma_first_space(w);
    assert(!is_space(w[0]));
    if first_space(w) < w.len() {
        assert(is_space(w[first_space(w)]));
    }
    assert(w.take(first_space(w)) =~= w);
    assert(words(w.skip(first_space(w))) =~= Seq::<Seq<char>>::empty());
    assert(words(w) =~= seq![w]);
}

/// White space parts words, and nothing else does: the words of a text are those before
/// any white space in it and those after it.
pub proof fn law_words_part_at_space(a: Seq<char>, c: char, b: Seq<char>)
    requires
        is_space(c),
    ensures
        words(a.push(c) + b) == words(a) + words(b),
    decreases a.len(),
{
    let s = a.push(c) + b;
    let t = trim_start_spec(a);
    lemma_trim_start(a);
    lemma_trim_start_cuts(a);
    let k = a.len() - t.len();
    if t.len() == 0 {
        assert forall|i: int| 0 <= i < a.push(c).len() implies is_space(#[trigger] a.push(c)[i]) by {}
        lemma_trim_start_spaces(a.push(c), b);
        assert(words(s) == words(b));
        assert(words(a) + words(b) =~= words(b));
    } else {
        assert(s =~= a.take(k) + (t.push(c) + b));
        lemma_trim_start_spaces(a.take(k), t.push(c) + b);
        let u = t.push(c) + b;
        assert(u[0] == t[0]);
        assert(trim_start_spec(u) == u);
        lemma_first_space(t);
        lemma_first_space(u);
        let n = first_space(t);
        if first_space(u) < n {
            assert(u[first_space(u)] == t[first_space(u)]);
        }
        assert(u[n] == (if n < t.len() { t[n] } else { c }));
        assert(is_space(u[n]));
        if n < first_space(u) {
            assert(!is_space(u[n]));
        }
        assert(first_space(u) == n);
        assert(u.take(n) =~= t.take(n));
        assert(u.skip(n) =~= t.skip(n).push(c) + b);
        law_words_part_at_space(t.skip(n), c, b);
        assert(words(s) =~= seq![t.take(n)] + (words(t.skip(n)) + words(b)));
        assert(words(a) + words(b) =~= words(s));
    }
}

/// Trimming takes away white space at the two ends only, and all of it.
pub proof fn law_trim(s: Seq<char>) -> (k: int)
    ensures
        0 <= k <= s.len() - trim_spec(s).len(),
        trim_spec(s) == s.subrange(k, k + trim_spec(s).len()),
        forall|i: int|
            0 <= i < s.len() && !(k <= i < k + trim_spec(s).len()) ==> is_space(#[trigger] s[i]),
        trim_spec(s).len() > 0 ==> !is_space(trim_spec(s)[0]) && !is_space(trim_spec(s).last()),
{
    let t = trim_start_spec(s);
    lemma_trim_start(s);
    lemma_trim_start_cuts(s);
    lemma_trim_end(t);
    let k = s.len() - t.len();
    let n = trim_spec(s).len() as int;
    assert(trim_spec(s) =~= s.subrange(k, k + n));
    assert forall|i: int| 0 <= i < s.len() && !(k <= i < k + n) implies is_space(
        #[trigger] s[i],
    ) by {
        if i >= k {
            assert(s[i] == t[i - k]);
        }
    }
    k
}

proof fn lemma_trim_end(s: Seq<char>)
    ensures
        trim_end_spec(s).len() <= s.len(),
        trim_end_spec(s) == s.take(trim_end_spec(s).len() as int),
        forall|i: int| trim_end_spec(s).len() <= i < s.len() ==> is_space(#[trigger] s[i]),
        trim_end_spec(s).len() > 0 ==> !is_space(trim_end_spec(s).last()),
    decreases s.len(),
{
    if s.len() > 0 && is_space(s.last()) {
        let r = s.drop_last();
        lemma_trim_end(r);
        let n = trim_end_spec(r).len() as int;
        assert(r.take(n) =~= s.take(n));
        assert forall|i: int| n <= i < s.len() implies is_space(#[trigger] s[i]) by {
            if i < r.len() {
                assert(r[i] == s[i]);
            }
        }
    } else {
        assert(s.take(s.len() as int) =~= s);
    }
}

/// A line ends at a line feed, which is not part of it, nor is a carriage return right
/// before it; the rest of the text goes on with the next line.
pub proof fn law_lines_part_at_line_feed(a: Seq<char>, b: Seq<char>)
    requires
        forall|i: int| 0 <= i < a.len() ==> #[trigger] a[i] != '\n',
    ensures
        lines_spec(a.push('\r').push('\n') + b) == seq![a] + lines_spec(b),
        a.len() == 0 || a.last() != '\r' ==> lines_spec(a.push('\n') + b) == seq![a] + lines_spec(
            b,
        ),
        a.len() > 0 ==> lines_spec(a) == seq![a],
        lines_spec(Seq::empty()) == Seq::<Seq<char>>::empty(),
{
    let n = a.len() as int;
    let x = a.push('\n') + b;
    lemma_line_feed_at(x, n);
    assert(x.take(n) =~= a);
    assert(x.skip(n + 1) =~= b);
    let y = a.push('\r').push('\n') + b;
    assert forall|i: int| 0 <= i < n + 1 implies #[trigger] y[i] != '\n' by {}
    lemma_line_feed_at(y, n + 1);
    assert(y.take(n + 1) =~= a.push('\r'));
    assert(y.skip(n + 2) =~= b);
    assert(a.push('\r').drop_last() =~= a);
    lemma_first_char(a, '\n');
    if first_char(a, '\n') < a.len() {
        assert(a[first_char(a, '\n')] == '\n');
    }
}

proof fn lemma_line_feed_at(s: Seq<char>, n: int)
    requires
        0 <= n < s.len(),
        s[n] == '\n',
        forall|i: int| 0 <= i < n ==> #[trigger] s[i] != '\n',
    ensures
        first_char(s, '\n') == n,
{
    lemma_first_char(s, '\n');
    let p = first_char(s, '\n');
    if p < n {
        assert(s[p] != '\n');
    }
    if n < p {
        assert(s[n] != '\n');
    }
}

/// A text in a column ends with itself, has only blanks before it, and is as wide as the
/// column where it fits.
pub proof fn law_padded(s: Seq<char>, width: nat)
    ensures
        padded(s, width).len() == (if s.len() < width {
            width
        } else {
            s.len()
        }),
        padded(s, width).skip(padded(s, width).len() - s.len()) == s,
        forall|i: int|
            0 <= i < padded(s, width).len() - s.len() ==> #[trigger] padded(s, width)[i] == ' ',
{
    assert(padded(s, width).skip(padded(s, width).len() - s.len()) =~= s);
}

/// Joining puts the separator between neighbours and nowhere else.
pub proof fn law_joined(a: Seq<Seq<char>>, b: Seq<Seq<char>>, s: Seq<char>, sep: Seq<char>)
    ensures
        joined(seq![s], sep) == s,
        joined(Seq::empty(), sep) == Seq::<char>::empty(),
        a.len() > 0 && b.len() > 0 ==> joined(a + b, sep) == joined(a, sep) + sep + joined(b, sep),
    decreases b.len(),
{
    if a.len() > 0 && b.len() > 0 {
        assert((a + b).drop_last() =~= a + b.drop_last());
        assert((a + b).last() == b.last());
        if b.len() == 1 {
            assert(a + b.drop_last() =~= a);
            assert(joined(b, sep) == b[0]);
        } else {
            law_joined(a, b.drop_last(), s, sep);
            assert(joined(a, sep) + sep + joined(b.drop_last(), sep) + sep + b.last() =~= joined(
                a,
                sep,
            ) + sep + (joined(b.drop_last(), sep) + sep + b.last()));
        }
    }
}

/// A list of words, written with a blank between neighbours, has those words.
pub proof fn law_words_of_joined(list: Seq<Seq<char>>)
    requires
        forall|i: int| 0 <= i < list.len() ==> (#[trigger] list[i]).len() > 0,
        forall|i: int, j: int|
            0 <= i < list.len() && 0 <= j < list[i].len() ==> !is_space(#[trigger] list[i][j]),
    ensures
        words(joined(list, seq![' '])) == list,
    decreases list.len(),
{
    if list.len() == 0 {
        assert(words(joined(list, seq![' '])) =~= list);
    } else {
        let w = list.last();
        assert(list[list.len() - 1] == w);
        assert forall|j: int| 0 <= j < w.len() implies !is_space(#[trigger] w[j]) by {
            assert(!is_space(list[list.len() - 1][j]));
        }
        law_word_alone(w);
        if list.len() == 1 {
            assert(list =~= seq![w]);
        } else {
            let rest = list.drop_last();
            assert forall|i: int, j: int| 0 <= i < rest.len() && 0 <= j < rest[i].len() implies
                !is_space(#[trigger] rest[i][j]) by {
                assert(rest[i] == list[i]);
                assert(!is_space(list[i][j]));
            }
            law_words_of_joined(rest);
            let text = joined(rest, seq![' ']);
            assert(is_space(' '));
            law_words_part_at_space(text, ' ', w);
            assert(joined(list, seq![' ']) =~= text.push(' ') + w);
            assert(words(joined(list, seq![' '])) =~= list);
        }
    }
}

/// The text is made of digits, at least one.
pub open spec fn is_digit_text(s: Seq<char>) -> bool {
    s.len() > 0 && forall|i: int| 0 <= i < s.len() ==> '0' <= #[trigger] s[i] <= '9'
}

proof fn lemma_number_without_exponent(s: Seq<char>)
    requires
        s.len() > 0,
        forall|i: int|
            0 <= i < s.len() ==> #[trigger] s[i] != 'e' && s[i] != 'E' && s[i] != '+' && s[i]
                != '-',
        is_mantissa(s),
    ensures
        is_float_text(s),
{
    lemma_first_char(s, 'e');
    lemma_first_char(s, 'E');
    if first_char(s, 'e') < s.len() {
        assert(s[first_char(s, 'e')] == 'e');
    }
    if first_char(s, 'E') < s.len() {
        assert(s[first_char(s, 'E')] == 'E');
    }
    assert(s[0] != '+' && s[0] != '-');
    assert(is_number_with(s, exponent_at(s)));
}

proof fn lemma_mantissa(a: Seq<char>, b: Seq<char>)
    requires
        is_digit_text(a),
        is_digit_text(b),
    ensures
        is_mantissa(a),
        is_mantissa(a.push('.') + b),
{
    lemma_first_char(a, '.');
    if first_char(a, '.') < a.len() {
        assert(a[first_char(a, '.')] == '.');
    }
    let s = a.push('.') + b;
    lemma_first_char(s, '.');
    let p = first_char(s, '.');
    let n = a.len() as int;
    assert(s[n] == '.');
    if p < n {
        assert(s[p] == a[p]);
    }
    if n < p {
        assert(s[n] != '.');
    }
    assert(s.take(n) =~= a);
    assert(s.skip(n + 1) =~= b);
}

/// Digits write a number, and so do digits with a point between them, either with a sign
/// before them or not.
pub proof fn law_float_text(a: Seq<char>, b: Seq<char>)
    requires
        is_digit_text(a),
        is_digit_text(b),
    ensures
        is_float_text(a),
        is_float_text(a.push('.') + b),
        is_float_text(seq!['-'] + (a.push('.') + b)),
        is_float_text(seq!['+'] + (a.push('.') + b)),
{
    lemma_mantissa(a, b);
    assert('0' <= a[0] <= '9');
    lemma_number_without_exponent(a);
    let s = a.push('.') + b;
    assert forall|i: int| 0 <= i < s.len() implies #[trigger] s[i] != 'e' && s[i] != 'E' && s[i]
        != '+' && s[i] != '-' by {
        if i < a.len() {
            assert(s[i] == a[i]);
        } else if i > a.len() {
            assert(s[i] == b[i - a.len() - 1]);
        }
    }
    lemma_number_without_exponent(s);
    assert(s[0] == a[0]);
    assert(after_sign(s) == s);
    assert((seq!['-'] + s).skip(1) =~= s);
    assert((seq!['+'] + s).skip(1) =~= s);
}

/// A text with a character that no number has in it writes none, nor does the empty text.
pub proof fn law_not_float_text(s: Seq<char>, i: int)
    requires
        s.len() == 0 || {
            &&& 0 <= i < s.len()
            &&& !('0' <= s[i] <= '9')
            &&& s[i] != '+' && s[i] != '-' && s[i] != '.' && s[i] != 'e' && s[i] != 'E'
            &&& !seq!['i', 'n', 'f', 't', 'y', 'a'].contains(lower(s[i]))
        },
    ensures
        !is_float_text(s),
{
    let t = after_sign(s);
    let e = exponent_at(t);
    lemma_first_char(t, 'e');
    lemma_first_char(t, 'E');
    if s.len() > 0 {
        let k = if has_sign(s) {
            i - 1
        } else {
            i
        };
        let c = s[i];
        assert(t[k] == c);
        let letters = seq!['i', 'n', 'f', 't', 'y', 'a'];
        assert(letters[0] == 'i' && letters[1] == 'n' && letters[2] == 'f' && letters[3] == 't'
            && letters[4] == 'y' && letters[5] == 'a');
        assert(!letters.contains(lower(t[k])));
        assert(!spells(t, seq!['i', 'n', 'f'])) by {
            let w = seq!['i', 'n', 'f'];
            if spells(t, w) {
                assert(lower(t[k]) == w[k]);
                assert(letters.contains(w[k]));
            }
        }
        assert(!spells(t, seq!['i', 'n', 'f', 'i', 'n', 'i', 't', 'y'])) by {
            let w = seq!['i', 'n', 'f', 'i', 'n', 'i', 't', 'y'];
            if spells(t, w) {
                assert(lower(t[k]) == w[k]);
                assert(letters.contains(w[k]));
            }
        }
        assert(!spells(t, seq!['n', 'a', 'n'])) by {
            let w = seq!['n', 'a', 'n'];
            if spells(t, w) {
                assert(lower(t[k]) == w[k]);
                assert(letters.contains(w[k]));
            }
        }
        if e < t.len() {
            if k < e {
                lemma_no_mantissa(t.take(e), k);
            } else if e < k {
                let rest = t.skip(e + 1);
                assert(rest[k - e - 1] == c);
                if has_sign(rest) {
                    assert(rest.skip(1)[k - e - 2] == c);
                    assert(!is_digit(rest.skip(1)[k - e - 2]));
                } else {
                    assert(!is_digit(rest[k - e - 1]));
                }
            }
        } else {
            lemma_no_mantissa(t, k);
        }
    }
}

proof fn lemma_no_mantissa(s: Seq<char>, k: int)
    requires
        0 <= k < s.len(),
        !('0' <= s[k] <= '9'),
        s[k] != '.',
    ensures
        !is_mantissa(s),
{
    let p = first_char(s, '.');
    lemma_first_char(s, '.');
    if p < s.len() {
        if k < p {
            assert(s.take(p)[k] == s[k]);
            assert(!is_digit(s.take(p)[k]));
        } else {
            assert(s.skip(p + 1)[k - p - 1] == s[k]);
            assert(!is_digit(s.skip(p + 1)[k - p - 1]));
        }
    } else {
        assert(!is_digit(s[k]));
    }
}

/// An exponent of digits, with a sign or not, may follow the number; it has to have
/// digits.
pub proof fn law_float_exponent(a: Seq<char>, b: Seq<char>, e: Seq<char>)
    requires
        is_digit_text(a),
        is_digit_text(b),
        is_digit_text(e),
    ensures
        is_float_text((a.push('.') + b).push('e') + e),
        is_float_text((a.push('.') + b).push('E') + e),
        is_float_text((a.push('.') + b).push('e').push('-') + e),
        is_float_text((a.push('.') + b).push('e').push('+') + e),
        !is_float_text((a.push('.') + b).push('e')),
{
    let m = a.push('.') + b;
    lemma_mantissa(a, b);
    assert('0' <= a[0] <= '9' && '0' <= e[0] <= '9');
    assert(m[0] == a[0]);
    assert forall|i: int| 0 <= i < m.len() implies #[trigger] m[i] != 'e' && m[i] != 'E' by {
        if i < a.len() {
            assert(m[i] == a[i]);
        } else if i > a.len() {
            assert(m[i] == b[i - a.len() - 1]);
        }
    }
    assert(all_digits(e));
    let n = m.len() as int;
    let s1 = m.push('e') + e;
    assert(s1.take(n) =~= m);
    lemma_exponent_at(m, s1);
    assert(s1.skip(n + 1) =~= e);
    assert(s1[0] == m[0]);
    let s2 = m.push('E') + e;
    assert(s2.take(n) =~= m);
    lemma_exponent_at(m, s2);
    assert(s2.skip(n + 1) =~= e);
    assert(s2[0] == m[0]);
    let s3 = m.push('e').push('-') + e;
    assert(s3.take(n) =~= m);
    lemma_exponent_at(m, s3);
    assert(s3.skip(n + 1) =~= seq!['-'] + e);
    assert((seq!['-'] + e).skip(1) =~= e);
    assert(s3[0] == m[0]);
    let s4 = m.push('e').push('+') + e;
    assert(s4.take(n) =~= m);
    lemma_exponent_at(m, s4);
    assert(s4.skip(n + 1) =~= seq!['+'] + e);
    assert((seq!['+'] + e).skip(1) =~= e);
    assert(s4[0] == m[0]);
    let s5 = m.push('e');
    assert(s5.take(n) =~= m);
    lemma_exponent_at(m, s5);
    assert(s5.skip(n + 1).len() == 0);
    assert(s5[0] == m[0]);
    assert(lower(s5[0]) == s5[0]);
}

proof fn lemma_exponent_at(m: Seq<char>, s: Seq<char>)
    requires
        m.len() < s.len(),
        s.take(m.len() as int) == m,
        s[m.len() as int] == 'e' || s[m.len() as int] == 'E',
        forall|i: int| 0 <= i < m.len() ==> #[trigger] m[i] != 'e' && m[i] != 'E',
    ensures
        exponent_at(s) == m.len(),
{
    let n = m.len() as int;
    lemma_first_char(s, 'e');
    lemma_first_char(s, 'E');
    let p = first_char(s, 'e');
    let q = first_char(s, 'E');
    if p < n {
        assert(s.take(n)[p] == s[p]);
        assert(m[p] != 'e');
    }
    if q < n {
        assert(s.take(n)[q] == s[q]);
        assert(m[q] != 'E');
    }
    if s[n] == 'e' && n < p {
        assert(s[n] != 'e');
    }
    if s[n] == 'E' && n < q {
        assert(s[n] != 'E');
    }
}

/// A text of digits and points writes a number if and only if it has at most one point and
/// a digit beside it.
pub proof fn law_points(s: Seq<char>)
    requires
        forall|i: int| 0 <= i < s.len() ==> ('0' <= #[trigger] s[i] <= '9' || s[i] == '.'),
    ensures
        is_float_text(s) <==> {
            &&& exists|i: int| 0 <= i < s.len() && #[trigger] s[i] != '.'
            &&& forall|i: int, j: int|
                0 <= i < j < s.len() ==> !(#[trigger] s[i] == '.' && #[trigger] s[j] == '.')
        },
{
    lemma_first_char(s, 'e');
    lemma_first_char(s, 'E');
    lemma_first_char(s, '.');
    let p = first_char(s, '.');
    if s.len() > 0 {
        assert(s[0] != '+' && s[0] != '-');
        if first_char(s, 'e') < s.len() {
            assert(s[first_char(s, 'e')] == 'e');
        }
        if first_char(s, 'E') < s.len() {
            assert(s[first_char(s, 'E')] == 'E');
        }
        assert(lower(s[0]) == s[0]);
        assert(!spells(s, seq!['i', 'n', 'f']));
        assert(!spells(s, seq!['i', 'n', 'f', 'i', 'n', 'i', 't', 'y']));
        assert(!spells(s, seq!['n', 'a', 'n']));
        assert(is_float_text(s) <==> is_mantissa(s));
    }
    let digit = exists|i: int| 0 <= i < s.len() && #[trigger] s[i] != '.';
    let single = forall|i: int, j: int|
        0 <= i < j < s.len() ==> !(#[trigger] s[i] == '.' && #[trigger] s[j] == '.');
    if p < s.len() {
        assert(s[p] == '.');
        if is_mantissa(s) {
            assert forall|i: int, j: int| 0 <= i < j < s.len() implies !(#[trigger] s[i] == '.'
                && #[trigger] s[j] == '.') by {
                if s[j] == '.' && s[i] == '.' {
                    if j > p {
                        assert(s.skip(p + 1)[j - p - 1] == s[j]);
                        assert(is_digit(s.skip(p + 1)[j - p - 1]));
                    }
                }
            }
            if p > 0 {
                assert(s[0] != '.');
            } else {
                assert(s.skip(1)[0] == s[1]);
                assert(is_digit(s.skip(1)[0]));
                assert(s[1] != '.');
            }
        }
        if digit && single {
            assert(all_digits(s.take(p))) by {
                assert forall|i: int| 0 <= i < p implies is_digit(#[trigger] s.take(p)[i]) by {
                    assert(s[i] != '.');
                }
            }
            assert(all_digits(s.skip(p + 1))) by {
                assert forall|i: int| 0 <= i < s.skip(p + 1).len() implies is_digit(
                    #[trigger] s.skip(p + 1)[i],
                ) by {
                    let j = i + p + 1;
                    assert(s[j] == s.skip(p + 1)[i]);
                    assert(!(s[p] == '.' && s[j] == '.'));
                }
            }
            if s.len() == 1 {
                let i = choose|i: int| 0 <= i < s.len() && #[trigger] s[i] != '.';
                assert(i == 0 && p == 0);
            }
        }
    } else {
        assert forall|i: int| 0 <= i < s.len() implies #[trigger] s[i] != '.' by {}
        if s.len() > 0 {
            assert(s[0] != '.');
            assert(all_digits(s)) by {
                assert forall|i: int| 0 <= i < s.len() implies is_digit(#[trigger] s[i]) by {
                    assert(s[i] != '.');
                }
            }
        }
    }
}

/// Infinity and what is no number may be written as words, in letters of either case.
pub proof fn law_float_words(s: Seq<char>)
    ensures
        s.len() == 3 && (s[0] == 'i' || s[0] == 'I') && (s[1] == 'n' || s[1] == 'N') && (s[2] == 'f'
            || s[2] == 'F') ==> is_float_text(s),
        s.len() == 3 && (s[0] == 'n' || s[0] == 'N') && (s[1] == 'a' || s[1] == 'A') && (s[2] == 'n'
            || s[2] == 'N') ==> is_float_text(s),
{
    if s.len() == 3 {
        assert(lower('I') == 'i' && lower('N') == 'n' && lower('F') == 'f' && lower('A') == 'a');
        assert(after_sign(s) == s || s[0] == '+' || s[0] == '-');
        if (s[0] == 'i' || s[0] == 'I') && (s[1] == 'n' || s[1] == 'N') && (s[2] == 'f' || s[2]
            == 'F') {
            assert(spells(s, seq!['i', 'n', 'f']));
        }
        if (s[0] == 'n' || s[0] == 'N') && (s[1] == 'a' || s[1] == 'A') && (s[2] == 'n' || s[2]
            == 'N') {
            assert(spells(s, seq!['n', 'a', 'n']));
        }
    }
}

/// Blanks are as many as they should be, and blanks.
pub proof fn law_spaces(n: nat)
    ensures
        spaces(n).len() == n,
        forall|i: int| 0 <= i < n ==> #[trigger] spaces(n)[i] == ' ',
{
}

} // verus!
