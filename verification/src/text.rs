//! Verified helpers on text: conversion between strings and character
//! sequences, whitespace classification, trimming and decimal rendering.

use vstd::prelude::*;

verus! {

/// Appends one character to a string (`String::push`).
#[verifier::external_body]
pub(crate) fn push_char(s: &mut String, c: char)
    ensures
        final(s)@ == old(s)@.push(c),
{
    s.push(c);
}

/// Unicode `White_Space`, the property that `char::is_whitespace` tests.
pub open spec fn is_ws(c: char) -> bool {
    let n = c as u32;
    ||| 0x09 <= n <= 0x0D
    ||| n == 0x20
    ||| n == 0x85
    ||| n == 0xA0
    ||| n == 0x1680
    ||| 0x2000 <= n <= 0x200A
    ||| n == 0x2028
    ||| n == 0x2029
    ||| n == 0x202F
    ||| n == 0x205F
    ||| n == 0x3000
}

pub fn is_whitespace(c: char) -> (b: bool)
    ensures
        b == is_ws(c),
{
    let n = c as u32;
    (0x09 <= n && n <= 0x0D) || n == 0x20 || n == 0x85 || n == 0xA0 || n == 0x1680 || (0x2000
        <= n && n <= 0x200A) || n == 0x2028 || n == 0x2029 || n == 0x202F || n == 0x205F || n
        == 0x3000
}

/// `s` with its trailing whitespace removed.
pub open spec fn trim_end_ws(s: Seq<char>) -> Seq<char>
    decreases s.len(),
{
    if s.len() > 0 && is_ws(s.last()) {
        trim_end_ws(s.drop_last())
    } else {
        s
    }
}

/// `s` with its leading whitespace removed.
pub open spec fn trim_start_ws(s: Seq<char>) -> Seq<char>
    decreases s.len(),
{
    if s.len() > 0 && is_ws(s[0]) {
        trim_start_ws(s.drop_first())
    } else {
        s
    }
}

/// `s` with whitespace removed at both ends.
pub open spec fn trim_ws(s: Seq<char>) -> Seq<char> {
    trim_start_ws(trim_end_ws(s))
}

/// A text ends in whitespace.
pub open spec fn ends_in_ws(s: Seq<char>) -> bool {
    s.len() > 0 && is_ws(s.last())
}

/// Every character of `s` is whitespace.
pub open spec fn all_ws(s: Seq<char>) -> bool {
    forall|i: int| 0 <= i < s.len() ==> #[trigger] is_ws(s[i])
}

pub proof fn lemma_trim_end_ws(s: Seq<char>)
    ensures
        trim_end_ws(s).len() <= s.len(),
        !ends_in_ws(trim_end_ws(s)),
        trim_end_ws(s) == s.take(trim_end_ws(s).len() as int),
        all_ws(s.skip(trim_end_ws(s).len() as int)),
    decreases s.len(),
{
    if s.len() > 0 && is_ws(s.last()) {
        lemma_trim_end_ws(s.drop_last());
        let t = trim_end_ws(s.drop_last());
        assert(s.drop_last().take(t.len() as int) =~= s.take(t.len() as int));
        assert forall|i: int| 0 <= i < s.skip(t.len() as int).len() implies #[trigger] is_ws(
            s.skip(t.len() as int)[i],
        ) by {
            if i < s.drop_last().skip(t.len() as int).len() {
                assert(s.skip(t.len() as int)[i] == s.drop_last().skip(t.len() as int)[i]);
            }
        }
    } else {
        assert(s.take(s.len() as int) =~= s);
    }
}

/// Trimming at the end is the longest prefix that does not end in whitespace
/// and is followed only by whitespace.
pub proof fn lemma_trim_end_ws_unique(s: Seq<char>, k: int)
    requires
        0 <= k <= s.len(),
        !ends_in_ws(s.take(k)),
        all_ws(s.skip(k)),
    ensures
        trim_end_ws(s) == s.take(k),
    decreases s.len(),
{
    if k < s.len() {
        assert(is_ws(s.skip(k)[s.len() - 1 - k]));
        assert(s.last() == s.skip(k)[s.len() - 1 - k]);
        assert(s.drop_last().take(k) =~= s.take(k));
        assert forall|i: int| 0 <= i < s.drop_last().skip(k).len() implies #[trigger] is_ws(
            s.drop_last().skip(k)[i],
        ) by {
            assert(s.drop_last().skip(k)[i] == s.skip(k)[i]);
        }
        lemma_trim_end_ws_unique(s.drop_last(), k);
    } else {
        assert(s.take(k) =~= s);
    }
}

/// The characters of `s`, in order.
pub fn chars_of(s: &str) -> (v: Vec<char>)
    ensures
        v@ == s@,
{
    let mut v: Vec<char> = Vec::new();
    for c in it: s.chars()
        invariant
            v@ == it.seq().take(it.index() as int),
    {
        v.push(c);
    }
    v
}

/// The string made of `v[from..to]`.
pub fn string_from_range(v: &Vec<char>, from: usize, to: usize) -> (s: String)
    requires
        from <= to <= v.len(),
    ensures
        s@ == v@.subrange(from as int, to as int),
{
    let mut s = String::new();
    let mut i = from;
    while i < to
        invariant
            from <= i <= to <= v.len(),
            s@ == v@.subrange(from as int, i as int),
        decreases to - i,
    {
        push_char(&mut s, v[i]);
        assert(v@.subrange(from as int, i + 1) =~= v@.subrange(from as int, i as int).push(v@[i as int]));
        i += 1;
    }
    s
}

/// The string made of all of `v`.
pub fn string_from_chars(v: &Vec<char>) -> (s: String)
    ensures
        s@ == v@,
{
    let s = string_from_range(v, 0, v.len());
    assert(v@.subrange(0, v@.len() as int) =~= v@);
    s
}

/// A string of `count` spaces.
pub open spec fn spaces_seq(count: nat) -> Seq<char> {
    Seq::new(count, |i: int| ' ')
}

pub fn repeat_space(count: usize) -> (s: String)
    ensures
        s@ == spaces_seq(count as nat),
{
    let mut s = String::new();
    let mut i: usize = 0;
    while i < count
        invariant
            i <= count,
            s@ == spaces_seq(i as nat),
        decreases count - i,
    {
        push_char(&mut s, ' ');
        assert(spaces_seq((i + 1) as nat) =~= spaces_seq(i as nat).push(' '));
        i += 1;
    }
    s
}

/// `s` contains the character `c`.
pub fn contains_char(s: &str, c: char) -> (b: bool)
    ensures
        b == s@.contains(c),
{
    let v = chars_of(s);
    let mut i: usize = 0;
    while i < v.len()
        invariant
            i <= v.len(),
            v@ == s@,
            forall|j: int| 0 <= j < i ==> v@[j] != c,
        decreases v.len() - i,
    {
        if v[i] == c {
            assert(s@[i as int] == c);
            return true;
        }
        i += 1;
    }
    false
}

/// `s` without its trailing whitespace (`str::trim_end`).
pub fn trim_end_string(s: &str) -> (t: String)
    ensures
        t@ == trim_end_ws(s@),
{
    let v = chars_of(s);
    let mut end = v.len();
    while end > 0 && is_whitespace(v[end - 1])
        invariant
            end <= v.len(),
            v@ == s@,
            all_ws(v@.skip(end as int)),
        decreases end,
    {
        assert forall|i: int| 0 <= i < v@.skip(end - 1).len() implies #[trigger] is_ws(
            v@.skip(end - 1)[i],
        ) by {
            if i > 0 {
                assert(v@.skip(end - 1)[i] == v@.skip(end as int)[i - 1]);
            }
        }
        end -= 1;
    }
    proof {
        lemma_trim_end_ws_unique(v@, end as int);
    }
    string_from_range(&v, 0, end)
}

/// `s` is empty or made of whitespace only (`s.trim().is_empty()`).
pub fn is_blank(s: &str) -> (b: bool)
    ensures
        b == all_ws(s@),
{
    let v = chars_of(s);
    let mut i: usize = 0;
    while i < v.len()
        invariant
            i <= v.len(),
            v@ == s@,
            forall|j: int| 0 <= j < i ==> #[trigger] is_ws(v@[j]),
        decreases v.len() - i,
    {
        if !is_whitespace(v[i]) {
            return false;
        }
        i += 1;
    }
    true
}

/// The decimal digit for `d`.
pub open spec fn digit_char(d: nat) -> char {
    if d == 0 {
        '0'
    } else if d == 1 {
        '1'
    } else if d == 2 {
        '2'
    } else if d == 3 {
        '3'
    } else if d == 4 {
        '4'
    } else if d == 5 {
        '5'
    } else if d == 6 {
        '6'
    } else if d == 7 {
        '7'
    } else if d == 8 {
        '8'
    } else {
        '9'
    }
}

/// The decimal rendering of `n`, without leading zeros.
pub open spec fn decimal(n: nat) -> Seq<char>
    decreases n,
{
    if n < 10 {
        seq![digit_char(n)]
    } else {
        decimal(n / 10).push(digit_char(n % 10))
    }
}

fn digit_of(d: usize) -> (c: char)
    requires
        d < 10,
    ensures
        c == digit_char(d as nat),
{
    if d == 0 {
        '0'
    } else if d == 1 {
        '1'
    } else if d == 2 {
        '2'
    } else if d == 3 {
        '3'
    } else if d == 4 {
        '4'
    } else if d == 5 {
        '5'
    } else if d == 6 {
        '6'
    } else if d == 7 {
        '7'
    } else if d == 8 {
        '8'
    } else {
        '9'
    }
}

/// Appends the decimal rendering of `n` to `s`.
pub fn push_decimal(s: &mut String, n: usize)
    ensures
        final(s)@ == old(s)@ + decimal(n as nat),
    decreases n,
{
    if n < 10 {
        push_char(s, digit_of(n));
        assert(old(s)@.push(digit_char(n as nat)) =~= old(s)@ + decimal(n as nat));
    } else {
        push_decimal(s, n / 10);
        push_char(s, digit_of(n % 10));
        assert((old(s)@ + decimal((n / 10) as nat)).push(digit_char((n % 10) as nat)) =~= old(s)@
            + decimal(n as nat));
    }
}

/// The text `s` followed by the text `t`.
pub fn concat_str(s: &str, t: &str) -> (r: String)
    ensures
        r@ == s@ + t@,
{
    let mut r = String::from_str(s);
    r.append(t);
    r
}

/// `a * b`, capped at the largest `usize`.
pub fn saturating_product(a: usize, b: usize) -> (r: usize)
    ensures
        r == (if a * b > usize::MAX {
            usize::MAX as int
        } else {
            a * b
        }),
{
    match a.checked_mul(b) {
        Some(p) => p,
        None => usize::MAX,
    }
}

} // verus!
