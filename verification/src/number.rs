//! Decimal rendering of JSON numbers for number-list normalization.
//!
//! A number is normalized to its plain decimal form: no exponent, no leading
//! zeros in the whole part, no trailing zeros in the fraction, and no point
//! when there is no fraction. Normalization is refused for texts that are no
//! JSON number and for numbers whose plain form is longer than 16 characters;
//! numbers are aligned by padding that form with zeros to a common number of
//! decimals.

use vstd::prelude::*;
use crate::text::{push_char, chars_of};
use vstd::arithmetic::power::{lemma_pow_adds, lemma_pow_positive, pow};

verus! {

/// The longest plain form that normalization accepts.
pub const MAX_NORMALIZED_LEN: usize = 16;

/// An exponent beyond which the plain form is surely too long.
pub const EXPONENT_CAP: u64 = 1_000_000_000_000;

pub open spec fn is_digit_char(c: char) -> bool {
    '0' <= c <= '9'
}

/// A text made of digits, a minus sign and a decimal point only.
pub open spec fn is_plain_decimal(s: Seq<char>) -> bool {
    forall|i: int| 0 <= i < s.len() ==> is_digit_char(#[trigger] s[i]) || s[i] == '-' || s[i] == '.'
}

/// The value of a digit character.
pub open spec fn digit_value(c: char) -> nat {
    ((c as int) - ('0' as int)) as nat
}

/// The number a string of digits writes.
pub open spec fn digits_value(ds: Seq<char>) -> nat
    decreases ds.len(),
{
    if ds.len() == 0 {
        0
    } else {
        digits_value(ds.drop_last()) * 10 + digit_value(ds.last())
    }
}

/// Ten to the power `k`.
pub open spec fn pow10(k: nat) -> nat {
    pow(10, k) as nat
}

/// Every character is a digit.
pub open spec fn all_digits(s: Seq<char>) -> bool {
    forall|i: int| 0 <= i < s.len() ==> is_digit_char(#[trigger] s[i])
}

/// A minus sign when `neg` holds.
pub open spec fn sign_text(neg: bool) -> Seq<char> {
    if neg {
        seq!['-']
    } else {
        Seq::empty()
    }
}

/// A point and the digits `f`, or nothing when `f` is empty.
pub open spec fn point_text(f: Seq<char>) -> Seq<char> {
    if f.len() == 0 {
        Seq::empty()
    } else {
        seq!['.'] + f
    }
}

/// An exponent: nothing, or `e` or `E`, an optional sign (`eneg` for a
/// minus) and the digits `e`.
pub open spec fn exponent_text(x: Seq<char>, eneg: bool, e: Seq<char>) -> bool {
    ||| x.len() == 0 && e.len() == 0 && !eneg
    ||| x.len() >= 2 && (x[0] == 'e' || x[0] == 'E') && e.len() > 0 && all_digits(e) && ((x[1]
        == '-' && eneg && x.skip(2) == e) || (x[1] == '+' && !eneg && x.skip(2) == e) || (!eneg
        && x.skip(1) == e))
}

/// `s` writes a number: an optional minus, the whole digits `w`, the
/// fraction digits `f` after a point (none without a point), and the
/// exponent text `x` of sign `eneg` and digits `e`.
pub open spec fn number_text(
    s: Seq<char>,
    neg: bool,
    w: Seq<char>,
    f: Seq<char>,
    x: Seq<char>,
    eneg: bool,
    e: Seq<char>,
) -> bool {
    &&& s == sign_text(neg) + w + point_text(f) + x
    &&& w.len() > 0
    &&& all_digits(w)
    &&& all_digits(f)
    &&& exponent_text(x, eneg, e)
}

/// The power of ten of the last digit of such a number.
pub open spec fn scale_of(f: Seq<char>, eneg: bool, e: Seq<char>) -> int {
    (if eneg {
        -(digits_value(e) as int)
    } else {
        digits_value(e) as int
    }) - f.len()
}

/// `m1` times ten to the `e1` equals `m2` times ten to the `e2`.
pub open spec fn same_scaled(m1: nat, e1: int, m2: nat, e2: int) -> bool {
    if e1 >= e2 {
        m1 * pow10((e1 - e2) as nat) == m2
    } else {
        m1 == m2 * pow10((e2 - e1) as nat)
    }
}

/// Whole digits `i` without a leading zero (but for a lone `0`), and
/// fraction digits `f2` without a trailing zero.
pub open spec fn canonical(i: Seq<char>, f2: Seq<char>) -> bool {
    &&& (i.len() == 1 || i[0] != '0')
    &&& (f2.len() == 0 || f2.last() != '0')
}

/// `t` is the plain decimal `i.f2` (with the sign of `s`) of the number
/// `s`, in canonical form, and writes the same value.
pub open spec fn plain_of(
    s: Seq<char>,
    t: Seq<char>,
    neg: bool,
    w: Seq<char>,
    f: Seq<char>,
    x: Seq<char>,
    eneg: bool,
    e: Seq<char>,
    i: Seq<char>,
    f2: Seq<char>,
) -> bool {
    &&& number_text(s, neg, w, f, x, eneg, e)
    &&& t == sign_text(neg) + i + point_text(f2)
    &&& i.len() > 0
    &&& all_digits(i)
    &&& all_digits(f2)
    &&& canonical(i, f2)
    &&& same_scaled(
        digits_value(w + f),
        scale_of(f, eneg, e),
        digits_value(i + f2),
        -(f2.len() as int),
    )
}

proof fn lemma_dv_push(x: Seq<char>, c: char)
    ensures
        digits_value(x.push(c)) == digits_value(x) * 10 + digit_value(c),
{
    assert(x.push(c).drop_last() =~= x);
}

proof fn lemma_pow10_add(a: nat, b: nat)
    ensures
        pow10(a + b) == pow10(a) * pow10(b),
{
    lemma_pow_adds(10, a, b);
    lemma_pow_positive(10, a);
    lemma_pow_positive(10, b);
}

proof fn lemma_pow10_step(k: nat)
    ensures
        pow10(k + 1) == 10 * pow10(k),
        pow10(k) > 0,
{
    lemma_pow_positive(10, k);
    reveal(pow);
    assert(pow(10, k + 1) == 10 * pow(10, k));
}

/// The value of joined digit strings.
proof fn lemma_dv_concat(x: Seq<char>, y: Seq<char>)
    ensures
        digits_value(x + y) == digits_value(x) * pow10(y.len()) + digits_value(y),
    decreases y.len(),
{
    if y.len() == 0 {
        assert(x + y =~= x);
        reveal(pow);
        assert(pow10(0) == 1);
    } else {
        let y0 = y.drop_last();
        lemma_dv_concat(x, y0);
        assert((x + y).drop_last() =~= x + y0);
        assert((x + y).last() == y.last());
        let a = digits_value(x);
        let p = pow10(y0.len());
        let b = digits_value(y0);
        let d = digit_value(y.last());
        assert(digits_value(x + y) == digits_value(x + y0) * 10 + d);
        assert(digits_value(y) == b * 10 + d);
        lemma_pow10_step(y0.len());
        assert(pow10(y.len()) == 10 * p);
        assert((a * p + b) * 10 + d == a * (10 * p) + (b * 10 + d)) by (nonlinear_arith);
    }
}

/// Zeros write nothing.
proof fn lemma_dv_zeros(k: nat)
    ensures
        digits_value(zeros(k)) == 0,
    decreases k,
{
    if k > 0 {
        lemma_dv_zeros((k - 1) as nat);
        assert(zeros(k).drop_last() =~= zeros((k - 1) as nat));
    }
}

/// The sign, whole digits and fraction of a number.
pub open spec fn mantissa_text(neg: bool, w: Seq<char>, f: Seq<char>) -> Seq<char> {
    sign_text(neg) + w + point_text(f)
}

/// The exponent `e` capped at `EXPONENT_CAP`.
pub open spec fn capped(e: Seq<char>) -> nat {
    if digits_value(e) <= EXPONENT_CAP {
        digits_value(e)
    } else {
        EXPONENT_CAP as nat
    }
}

/// Scans the sign, whole digits and fraction of a number: its sign, its
/// digits without leading zeros, the count of fraction digits, and where
/// the scan stopped.
fn scan_mantissa(s: &Vec<char>) -> (r: Option<
    (bool, Vec<char>, usize, usize, Ghost<Seq<char>>, Ghost<Seq<char>>),
>)
    ensures
        r matches Some((neg, digits, frac_len, end, w, f)) ==> {
            &&& end <= s@.len()
            &&& s@.take(end as int) == mantissa_text(neg, w@, f@)
            &&& w@.len() > 0
            &&& all_digits(w@)
            &&& all_digits(f@)
            &&& frac_len == f@.len()
            &&& digits_value(digits@) == digits_value(w@ + f@)
            &&& all_digits(digits@)
            &&& (digits@.len() > 0 ==> digits@[0] != '0')
            &&& digits@.len() <= s@.len()
            &&& forall|n2: bool, w2: Seq<char>, f2: Seq<char>, x2: Seq<char>, en2: bool, e2: Seq<char>|
                #[trigger] number_text(s@, n2, w2, f2, x2, en2, e2) ==> n2 == neg && w2 == w@ && f2
                    == f@
        },
        r is None ==> !is_number(s@),
{
    let n = s.len();
    let mut i: usize = 0;
    let negative = n > 0 && s[0] == '-';
    if negative {
        i = 1;
    }
    let whole_start = i;
    let mut digits: Vec<char> = Vec::new();
    while i < n && '0' <= s[i] && s[i] <= '9'
        invariant
            whole_start <= i <= n,
            n == s@.len(),
            whole_start == (if negative {
                1int
            } else {
                0
            }),
            negative ==> s@[0] == '-',
            all_digits(s@.subrange(whole_start as int, i as int)),
            all_digits(digits@),
            digits@.len() > 0 ==> digits@[0] != '0',
            digits@.len() <= i,
            digits_value(digits@) == digits_value(s@.subrange(whole_start as int, i as int)),
        decreases n - i,
    {
        let ghost before = s@.subrange(whole_start as int, i as int);
        proof {
            assert(s@.subrange(whole_start as int, i + 1) =~= before.push(s@[i as int]));
            lemma_dv_push(before, s@[i as int]);
            lemma_dv_push(digits@, s@[i as int]);
        }
        if digits.len() > 0 || s[i] != '0' {
            digits.push(s[i]);
        }
        i += 1;
    }
    proof {
        assert(whole_start == sign_len(negative));
        assert forall|j: int| whole_start <= j < i implies is_digit_char(#[trigger] s@[j]) by {
            assert(s@[j] == s@.subrange(whole_start as int, i as int)[j - whole_start]);
        }
        assert(run_at(s@, whole_start as int, i - whole_start));
    }
    if i == whole_start {
        proof {
            assert forall|n2: bool, w2: Seq<char>, f2: Seq<char>, x2: Seq<char>, en2: bool, e2: Seq<char>|
                !#[trigger] number_text(s@, n2, w2, f2, x2, en2, e2) by {
                if number_text(s@, n2, w2, f2, x2, en2, e2) {
                    lemma_number_layout(s@, n2, w2, f2, x2, en2, e2);
                    lemma_run_unique(s@, whole_start as int, 0, w2.len() as int);
                }
            }
        }
        return None;
    }
    let whole_end = i;
    let ghost w = s@.subrange(whole_start as int, whole_end as int);
    if i < n && s[i] == '.' {
        i += 1;
        let frac_start = i;
        let mut frac_len: usize = 0;
        while i < n && '0' <= s[i] && s[i] <= '9'
            invariant
                frac_start <= i <= n,
                frac_start == whole_end + 1,
                n == s@.len(),
                w == s@.subrange(whole_start as int, whole_end as int),
                all_digits(w),
                w.len() > 0,
                whole_start == (if negative {
                    1int
                } else {
                    0
                }),
                negative ==> s@[0] == '-',
                whole_end < n,
                s@[whole_end as int] == '.',
                all_digits(s@.subrange(frac_start as int, i as int)),
                all_digits(digits@),
                digits@.len() > 0 ==> digits@[0] != '0',
                digits@.len() <= i,
                frac_len == i - frac_start,
                digits_value(digits@) == digits_value(
                    w + s@.subrange(frac_start as int, i as int),
                ),
            decreases n - i,
        {
            let ghost before = w + s@.subrange(frac_start as int, i as int);
            proof {
                assert(w + s@.subrange(frac_start as int, i + 1) =~= before.push(s@[i as int]));
                lemma_dv_push(before, s@[i as int]);
                lemma_dv_push(digits@, s@[i as int]);
            }
            if digits.len() > 0 || s[i] != '0' {
                digits.push(s[i]);
            }
            frac_len += 1;
            i += 1;
        }
        proof {
            assert forall|j: int| frac_start <= j < i implies is_digit_char(#[trigger] s@[j]) by {
                assert(s@[j] == s@.subrange(frac_start as int, i as int)[j - frac_start]);
            }
            assert(run_at(s@, frac_start as int, i - frac_start));
            assert(run_at(s@, whole_start as int, whole_end - whole_start));
        }
        if i == frac_start {
            proof {
                assert forall|n2: bool, w2: Seq<char>, f2: Seq<char>, x2: Seq<char>, en2: bool, e2: Seq<char>|
                    !#[trigger] number_text(s@, n2, w2, f2, x2, en2, e2) by {
                    if number_text(s@, n2, w2, f2, x2, en2, e2) {
                        lemma_number_layout(s@, n2, w2, f2, x2, en2, e2);
                        lemma_run_unique(s@, whole_start as int, (whole_end - whole_start) as int, w2.len() as int);
                        lemma_run_unique(s@, frac_start as int, 0, f2.len() as int);
                    }
                }
            }
            return None;
        }
        let ghost f = s@.subrange(frac_start as int, i as int);
        proof {
            assert(s@.take(i as int) =~= mantissa_text(negative, w, f));
            assert forall|n2: bool, w2: Seq<char>, f2: Seq<char>, x2: Seq<char>, en2: bool, e2: Seq<char>|
                #[trigger] number_text(s@, n2, w2, f2, x2, en2, e2) implies n2 == negative && w2 == w
                && f2 == f by {
                lemma_number_layout(s@, n2, w2, f2, x2, en2, e2);
                lemma_run_unique(s@, whole_start as int, (whole_end - whole_start) as int, w2.len() as int);
                lemma_run_unique(s@, frac_start as int, (i - frac_start) as int, f2.len() as int);
            }
        }
        return Some((negative, digits, frac_len, i, Ghost(w), Ghost(f)));
    }
    let ghost f = Seq::<char>::empty();
    proof {
        assert(w + f =~= w);
        assert(s@.take(i as int) =~= mantissa_text(negative, w, f));
        assert forall|n2: bool, w2: Seq<char>, f2: Seq<char>, x2: Seq<char>, en2: bool, e2: Seq<char>|
            #[trigger] number_text(s@, n2, w2, f2, x2, en2, e2) implies n2 == negative && w2 == w
            && f2 == f by {
            lemma_number_layout(s@, n2, w2, f2, x2, en2, e2);
            lemma_run_unique(s@, whole_start as int, (whole_end - whole_start) as int, w2.len() as int);
            assert(f2 =~= f);
        }
    }
    Some((negative, digits, 0, i, Ghost(w), Ghost(f)))
}

/// Scans the exponent of a number, from `start` to the end of `s`: its
/// sign and its value (capped).
fn scan_exponent(s: &Vec<char>, start: usize) -> (r: Option<(bool, u64, Ghost<Seq<char>>)>)
    requires
        start <= s@.len(),
    ensures
        r matches Some((eneg, exponent, e)) ==> exponent_text(s@.skip(start as int), eneg, e@)
            && exponent == capped(e@),
        r is None ==> forall|eneg: bool, e: Seq<char>|
            !#[trigger] exponent_text(s@.skip(start as int), eneg, e),
{
    let n = s.len();
    let mut i = start;
    let mut exp_negative = false;
    let mut exponent: u64 = 0;
    if i == n {
        proof {
            assert(s@.skip(start as int) =~= Seq::<char>::empty());
            assert(capped(Seq::<char>::empty()) == 0);
        }
        return Some((false, 0, Ghost(Seq::<char>::empty())));
    }
    if !(s[i] == 'e' || s[i] == 'E') {
        proof {
            assert(s@.skip(start as int)[0] == s@[start as int]);
        }
        return None;
    }
    i += 1;
    if i < n && (s[i] == '+' || s[i] == '-') {
        exp_negative = s[i] == '-';
        i += 1;
    }
    let exp_digits_start = i;
    while i < n && '0' <= s[i] && s[i] <= '9'
        invariant
            exp_digits_start <= i <= n,
            n == s@.len(),
            all_digits(s@.subrange(exp_digits_start as int, i as int)),
            exponent == capped(s@.subrange(exp_digits_start as int, i as int)),
        decreases n - i,
    {
        let ghost before = s@.subrange(exp_digits_start as int, i as int);
        proof {
            assert(s@.subrange(exp_digits_start as int, i + 1) =~= before.push(s@[i as int]));
            lemma_dv_push(before, s@[i as int]);
        }
        let d = (s[i] as u32 - '0' as u32) as u64;
        if exponent <= (EXPONENT_CAP - d) / 10 {
            exponent = exponent * 10 + d;
        } else {
            exponent = EXPONENT_CAP;
        }
        i += 1;
    }
    if i == exp_digits_start || i != n {
        proof {
            let x = s@.skip(start as int);
            assert forall|eneg: bool, e: Seq<char>| !#[trigger] exponent_text(x, eneg, e) by {
                if exponent_text(x, eneg, e) {
                    lemma_exponent_layout(x, eneg, e);
                    assert(x[1] == s@[start + 1]);
                    assert(e == s@.skip(exp_digits_start as int));
                    assert(e[0] == s@[exp_digits_start as int]);
                    if i < n {
                        assert(e[i - exp_digits_start] == s@[i as int]);
                    }
                }
            }
        }
        return None;
    }
    let ghost e = s@.subrange(exp_digits_start as int, n as int);
    proof {
        let x = s@.skip(start as int);
        assert(x.skip((exp_digits_start - start) as int) =~= e);
        assert(exponent_text(x, exp_negative, e));
    }
    Some((exp_negative, exponent, Ghost(e)))
}

/// Scans a number: its sign, its digits without leading zeros, the count
/// of fraction digits, the exponent's sign and the exponent (capped).
fn scan_number(s: &Vec<char>) -> (r: Option<
    (bool, Vec<char>, usize, bool, u64, Ghost<(Seq<char>, Seq<char>, Seq<char>, Seq<char>)>),
>)
    ensures
        r matches Some((neg, digits, frac_len, eneg, exponent, parts)) ==> {
            &&& number_text(s@, neg, parts@.0, parts@.1, parts@.2, eneg, parts@.3)
            &&& frac_len == parts@.1.len()
            &&& digits_value(digits@) == digits_value(parts@.0 + parts@.1)
            &&& all_digits(digits@)
            &&& (digits@.len() > 0 ==> digits@[0] != '0')
            &&& digits@.len() <= s@.len()
            &&& exponent == capped(parts@.3)
        },
        r is None ==> !is_number(s@),
{
    match scan_mantissa(s) {
        None => None,
        Some((negative, digits, frac_len, end, w, f)) => {
            match scan_exponent(s, end) {
                None => {
                    proof {
                        assert forall|n2: bool, w2: Seq<char>, f2: Seq<char>, x2: Seq<char>, en2: bool, e2: Seq<char>|
                            !#[trigger] number_text(s@, n2, w2, f2, x2, en2, e2) by {
                            if number_text(s@, n2, w2, f2, x2, en2, e2) {
                                lemma_number_layout(s@, n2, w2, f2, x2, en2, e2);
                                assert(sign_text(negative).len() == sign_len(negative));
                                assert(mantissa_text(negative, w@, f@).len() == end);
                                assert(!exponent_text(s@.skip(end as int), en2, e2));
                            }
                        }
                    }
                    None
                },
                Some((exp_negative, exponent, e)) => {
                    let ghost x = s@.skip(end as int);
                    proof {
                        assert(s@ =~= s@.take(end as int) + x);
                    }
                    Some((negative, digits, frac_len, exp_negative, exponent, Ghost((w@, f@, x, e@))))
                },
            }
        },
    }
}

/// `t` writes the number `s` as a plain decimal of the same value.
pub open spec fn normal_form_of(s: Seq<char>, t: Seq<char>) -> bool {
    exists|
        neg: bool,
        w: Seq<char>,
        f: Seq<char>,
        x: Seq<char>,
        eneg: bool,
        e: Seq<char>,
        i: Seq<char>,
        f2: Seq<char>,
    |
        #![trigger plain_of(s, t, neg, w, f, x, eneg, e, i, f2)]
        plain_of(s, t, neg, w, f, x, eneg, e, i, f2)
}

/// Appends `digits[from..to]`.
fn push_digits(out: &mut String, digits: &Vec<char>, from: usize, to: usize)
    requires
        from <= to <= digits@.len(),
    ensures
        final(out)@ == old(out)@ + digits@.subrange(from as int, to as int),
{
    let mut k = from;
    while k < to
        invariant
            from <= k <= to <= digits@.len(),
            out@ == old(out)@ + digits@.subrange(from as int, k as int),
        decreases to - k,
    {
        push_char(out, digits[k]);
        assert(old(out)@ + digits@.subrange(from as int, k + 1) =~= (old(out)@ + digits@.subrange(
            from as int,
            k as int,
        )).push(digits@[k as int]));
        k += 1;
    }
}

/// Appends `count` zeros.
fn push_zeros(out: &mut String, count: u128)
    ensures
        final(out)@ == old(out)@ + zeros(count as nat),
{
    let mut z: u128 = 0;
    while z < count
        invariant
            z <= count,
            out@ == old(out)@ + zeros(z as nat),
        decreases count - z,
    {
        push_char(out, '0');
        assert(old(out)@ + zeros((z + 1) as nat) =~= (old(out)@ + zeros(z as nat)).push('0'));
        z += 1;
    }
}

/// Leading zeros do not change the value of digits.
proof fn lemma_dv_leading_zeros(k: nat, y: Seq<char>)
    ensures
        digits_value(zeros(k) + y) == digits_value(y),
{
    lemma_dv_concat(zeros(k), y);
    lemma_dv_zeros(k);
}

/// A plain decimal with digits `i` and `f2` and the given sign.
proof fn lemma_plain_decimal(neg: bool, i: Seq<char>, f2: Seq<char>)
    requires
        all_digits(i),
        all_digits(f2),
    ensures
        is_plain_decimal(sign_text(neg) + i + point_text(f2)),
{
    let t = sign_text(neg) + i + point_text(f2);
    let a = sign_text(neg).len();
    assert forall|k: int| 0 <= k < t.len() implies is_digit_char(#[trigger] t[k]) || t[k] == '-'
        || t[k] == '.' by {
        if k < a {
        } else if k < a + i.len() {
            assert(t[k] == i[k - a]);
        } else if k == a + i.len() {
        } else {
            assert(t[k] == f2[k - a - i.len() - 1]);
        }
    }
}

/// The length of the sign text.
pub open spec fn sign_len(neg: bool) -> int {
    if neg {
        1
    } else {
        0
    }
}

/// `s[from..from + k]` are digits, and the digits end there.
pub open spec fn run_at(s: Seq<char>, from: int, k: int) -> bool {
    &&& 0 <= from && 0 <= k && from + k <= s.len()
    &&& forall|j: int| from <= j < from + k ==> is_digit_char(#[trigger] s[j])
    &&& (from + k == s.len() || !is_digit_char(s[from + k]))
}

/// `s` writes a number.
pub open spec fn is_number(s: Seq<char>) -> bool {
    exists|neg: bool, w: Seq<char>, f: Seq<char>, x: Seq<char>, eneg: bool, e: Seq<char>|
        #![trigger number_text(s, neg, w, f, x, eneg, e)]
        number_text(s, neg, w, f, x, eneg, e)
}

/// A run of digits ends in one place only.
proof fn lemma_run_unique(s: Seq<char>, from: int, k1: int, k2: int)
    requires
        run_at(s, from, k1),
        run_at(s, from, k2),
    ensures
        k1 == k2,
{
    if k1 < k2 {
        assert(is_digit_char(s[from + k1]));
    } else if k2 < k1 {
        assert(is_digit_char(s[from + k2]));
    }
}

/// Where the parts of a number stand in its text.
proof fn lemma_number_layout(
    s: Seq<char>,
    neg: bool,
    w: Seq<char>,
    f: Seq<char>,
    x: Seq<char>,
    eneg: bool,
    e: Seq<char>,
)
    requires
        number_text(s, neg, w, f, x, eneg, e),
    ensures
        neg == (s.len() > 0 && s[0] == '-'),
        run_at(s, sign_len(neg), w.len() as int),
        s.subrange(sign_len(neg), sign_len(neg) + w.len()) == w,
        f.len() > 0 ==> s[sign_len(neg) + w.len()] == '.' && run_at(
            s,
            sign_len(neg) + w.len() + 1,
            f.len() as int,
        ) && s.subrange(sign_len(neg) + w.len() + 1, sign_len(neg) + w.len() + 1 + f.len())
            == f,
        f.len() == 0 ==> sign_len(neg) + w.len() == s.len() || s[sign_len(neg) + w.len()] == 'e'
            || s[sign_len(neg) + w.len()] == 'E',
        x == s.skip(sign_len(neg) + w.len() + point_text(f).len()),
{
    let a = sign_len(neg);
    let m = sign_text(neg) + w + point_text(f);
    assert(sign_text(neg).len() == a);
    assert(s == m + x);
    assert(s.len() == m.len() + x.len());
    assert forall|j: int| 0 <= j < w.len() implies s[a + j] == w[j] by {
        assert(s[a + j] == m[a + j]);
    }
    if !neg {
        assert(s[0] == w[0]);
    }
    assert(s.subrange(a, a + w.len()) =~= w);
    assert forall|j: int| a <= j < a + w.len() implies is_digit_char(#[trigger] s[j]) by {
        assert(s[j] == w[j - a]);
    }
    let b = a + w.len();
    if f.len() > 0 {
        assert(s[b] == m[b]);
        assert(m[b] == '.');
        assert forall|j: int| 0 <= j < f.len() implies s[b + 1 + j] == f[j] by {
            assert(s[b + 1 + j] == m[b + 1 + j]);
        }
        assert(s.subrange(b + 1, b + 1 + f.len()) =~= f);
        assert forall|j: int| b + 1 <= j < b + 1 + f.len() implies is_digit_char(#[trigger] s[j]) by {
            assert(s[j] == f[j - b - 1]);
        }
        if b + 1 + f.len() < s.len() {
            assert(s[b + 1 + f.len()] == x[0]);
        }
    } else {
        assert(point_text(f) =~= Seq::<char>::empty());
        if b < s.len() {
            assert(s[b] == x[0]);
        }
    }
    assert(s.skip(m.len() as int) =~= x);
}

/// What the exponent text says of the exponent's sign and digits.
proof fn lemma_exponent_layout(x: Seq<char>, eneg: bool, e: Seq<char>)
    requires
        exponent_text(x, eneg, e),
    ensures
        x.len() == 0 ==> e.len() == 0 && !eneg,
        x.len() > 0 ==> x.len() >= 2 && (x[0] == 'e' || x[0] == 'E') && eneg == (x[1] == '-') && e
            == (if x[1] == '-' || x[1] == '+' {
            x.skip(2)
        } else {
            x.skip(1)
        }),
{
    if x.len() > 0 && !(x[1] == '-' && eneg && x.skip(2) == e) && !(x[1] == '+' && !eneg
        && x.skip(2) == e) {
        assert(x.skip(1) == e);
        assert(x[1] == e[0]);
    }
}

/// A number is cut into its parts in one way only.
proof fn lemma_number_text_unique(
    s: Seq<char>,
    n1: bool,
    w1: Seq<char>,
    f1: Seq<char>,
    x1: Seq<char>,
    en1: bool,
    e1: Seq<char>,
    n2: bool,
    w2: Seq<char>,
    f2: Seq<char>,
    x2: Seq<char>,
    en2: bool,
    e2: Seq<char>,
)
    requires
        number_text(s, n1, w1, f1, x1, en1, e1),
        number_text(s, n2, w2, f2, x2, en2, e2),
    ensures
        n1 == n2 && w1 == w2 && f1 == f2 && x1 == x2 && en1 == en2 && e1 == e2,
{
    lemma_number_layout(s, n1, w1, f1, x1, en1, e1);
    lemma_number_layout(s, n2, w2, f2, x2, en2, e2);
    let a = sign_len(n1);
    lemma_run_unique(s, a, w1.len() as int, w2.len() as int);
    let b = a + w1.len();
    if f1.len() > 0 && f2.len() > 0 {
        lemma_run_unique(s, b + 1, f1.len() as int, f2.len() as int);
    }
    assert(f1.len() > 0 <==> f2.len() > 0);
    if f1.len() == 0 {
        assert(f1 =~= f2);
    }
    lemma_exponent_layout(x1, en1, e1);
    lemma_exponent_layout(x2, en2, e2);
}

/// Digits write less than ten to their count.
proof fn lemma_dv_bound(s: Seq<char>)
    requires
        all_digits(s),
    ensures
        digits_value(s) < pow10(s.len()),
    decreases s.len(),
{
    if s.len() == 0 {
        reveal(pow);
    } else {
        let p = s.drop_last();
        assert(all_digits(p)) by {
            assert forall|k: int| 0 <= k < p.len() implies is_digit_char(#[trigger] p[k]) by {
                assert(p[k] == s[k]);
            }
        }
        lemma_dv_bound(p);
        lemma_pow10_step(p.len());
        let a = digits_value(p);
        let q = pow10(p.len());
        let d = digit_value(s.last());
        assert(is_digit_char(s[s.len() - 1]));
        assert(d < 10);
        assert(a * 10 + d < 10 * q) by (nonlinear_arith)
            requires
                a < q,
                d < 10,
        ;
    }
}

/// Digits led by a nonzero digit write at least ten to their count less
/// one.
proof fn lemma_dv_lower(s: Seq<char>)
    requires
        all_digits(s),
        s.len() > 0,
        s[0] != '0',
    ensures
        digits_value(s) >= pow10((s.len() - 1) as nat),
    decreases s.len(),
{
    reveal(pow);
    let p = s.drop_last();
    assert(is_digit_char(s[s.len() - 1]));
    if s.len() == 1 {
        assert(p.len() == 0);
        assert(digits_value(p) == 0);
        assert(is_digit_char(s[0]));
        assert(pow10(0) == 1);
    } else {
        assert(all_digits(p)) by {
            assert forall|k: int| 0 <= k < p.len() implies is_digit_char(#[trigger] p[k]) by {
                assert(p[k] == s[k]);
            }
        }
        assert(p[0] == s[0]);
        lemma_dv_lower(p);
        lemma_pow10_step((p.len() - 1) as nat);
        let a = digits_value(p);
        let q = pow10((p.len() - 1) as nat);
        assert(a * 10 + digit_value(s.last()) >= 10 * q) by (nonlinear_arith)
            requires
                a >= q,
        ;
    }
}

/// The last digit of a number of digits.
proof fn lemma_dv_last(s: Seq<char>)
    requires
        all_digits(s),
        s.len() > 0,
    ensures
        digits_value(s) % 10 == digit_value(s.last()),
        digits_value(s) / 10 == digits_value(s.drop_last()),
{
    assert(is_digit_char(s[s.len() - 1]));
    let a = digits_value(s.drop_last());
    let d = digit_value(s.last());
    assert((a * 10 + d) % 10 == d && (a * 10 + d) / 10 == a) by (nonlinear_arith)
        requires
            0 <= d < 10,
            a >= 0,
    ;
}

/// Digits of one length and one value are the same digits.
proof fn lemma_dv_injective(s1: Seq<char>, s2: Seq<char>)
    requires
        all_digits(s1),
        all_digits(s2),
        s1.len() == s2.len(),
        digits_value(s1) == digits_value(s2),
    ensures
        s1 == s2,
    decreases s1.len(),
{
    if s1.len() > 0 {
        lemma_dv_last(s1);
        lemma_dv_last(s2);
        let p1 = s1.drop_last();
        let p2 = s2.drop_last();
        assert(all_digits(p1)) by {
            assert forall|k: int| 0 <= k < p1.len() implies is_digit_char(#[trigger] p1[k]) by {
                assert(p1[k] == s1[k]);
            }
        }
        assert(all_digits(p2)) by {
            assert forall|k: int| 0 <= k < p2.len() implies is_digit_char(#[trigger] p2[k]) by {
                assert(p2[k] == s2[k]);
            }
        }
        lemma_dv_injective(p1, p2);
        assert(is_digit_char(s1[s1.len() - 1]));
        assert(is_digit_char(s2[s2.len() - 1]));
        assert(s1.last() == s2.last());
        assert(s1 =~= p1.push(s1.last()));
        assert(s2 =~= p2.push(s2.last()));
    }
}

/// Ten to a larger power is larger.
proof fn lemma_pow10_mono(a: nat, b: nat)
    requires
        a <= b,
    ensures
        pow10(a) <= pow10(b),
{
    lemma_pow10_add(a, (b - a) as nat);
    lemma_pow10_step((b - a) as nat);
    lemma_pow10_step(a);
    let p = pow10(a);
    let q = pow10((b - a) as nat);
    assert(p * q >= p) by (nonlinear_arith)
        requires
            p > 0,
            q > 0,
    ;
}

/// Whole digits in canonical form and of one value are the same digits.
proof fn lemma_whole_unique(i1: Seq<char>, i2: Seq<char>)
    requires
        all_digits(i1),
        all_digits(i2),
        i1.len() > 0,
        i2.len() > 0,
        i1.len() == 1 || i1[0] != '0',
        i2.len() == 1 || i2[0] != '0',
        digits_value(i1) == digits_value(i2),
    ensures
        i1 == i2,
{
    lemma_dv_bound(i1);
    lemma_dv_bound(i2);
    if i1.len() < i2.len() {
        lemma_dv_lower(i2);
        lemma_pow10_mono(i1.len(), (i2.len() - 1) as nat);
    } else if i2.len() < i1.len() {
        lemma_dv_lower(i1);
        lemma_pow10_mono(i2.len(), (i1.len() - 1) as nat);
    }
    lemma_dv_injective(i1, i2);
}

/// A value times a positive power of ten ends in a zero digit.
proof fn lemma_scaled_last_zero(v: nat, k: nat, s: Seq<char>)
    requires
        k > 0,
        all_digits(s),
        s.len() > 0,
        digits_value(s) == v * pow10(k),
    ensures
        s.last() == '0',
{
    lemma_pow10_step((k - 1) as nat);
    let q = pow10((k - 1) as nat);
    assert(v * pow10(k) == (v * q) * 10) by (nonlinear_arith)
        requires
            pow10(k) == 10 * q,
    ;
    assert(((v * q) * 10) % 10 == 0) by (nonlinear_arith);
    lemma_dv_last(s);
    assert(is_digit_char(s[s.len() - 1]));
}

/// Two canonical plain decimals of one value are the same.
proof fn lemma_plain_unique(i1: Seq<char>, g1: Seq<char>, i2: Seq<char>, g2: Seq<char>)
    requires
        all_digits(i1),
        all_digits(g1),
        all_digits(i2),
        all_digits(g2),
        i1.len() > 0,
        i2.len() > 0,
        canonical(i1, g1),
        canonical(i2, g2),
        same_scaled(
            digits_value(i1 + g1),
            -(g1.len() as int),
            digits_value(i2 + g2),
            -(g2.len() as int),
        ),
    ensures
        i1 == i2,
        g1 == g2,
{
    let d1 = i1 + g1;
    let d2 = i2 + g2;
    assert(all_digits(d1)) by {
        assert forall|k: int| 0 <= k < d1.len() implies is_digit_char(#[trigger] d1[k]) by {
            if k < i1.len() {
                assert(d1[k] == i1[k]);
            } else {
                assert(d1[k] == g1[k - i1.len()]);
            }
        }
    }
    assert(all_digits(d2)) by {
        assert forall|k: int| 0 <= k < d2.len() implies is_digit_char(#[trigger] d2[k]) by {
            if k < i2.len() {
                assert(d2[k] == i2[k]);
            } else {
                assert(d2[k] == g2[k - i2.len()]);
            }
        }
    }
    let v1 = digits_value(d1);
    let v2 = digits_value(d2);
    if g1.len() < g2.len() {
        assert(d2.last() == g2.last());
        lemma_scaled_last_zero(v1, (g2.len() - g1.len()) as nat, d2);
    } else if g2.len() < g1.len() {
        assert(d1.last() == g1.last());
        lemma_scaled_last_zero(v2, (g1.len() - g2.len()) as nat, d1);
    }
    assert(g1.len() == g2.len());
    let k = g1.len();
    reveal(pow);
    assert(pow10(0) == 1);
    assert(((-(k as int)) - (-(k as int))) as nat == 0);
    assert(v1 * pow10(0) == v2);
    assert(v1 == v2) by (nonlinear_arith)
        requires
            v1 * pow10(0) == v2,
            pow10(0) == 1,
    ;
    lemma_dv_concat(i1, g1);
    lemma_dv_concat(i2, g2);
    lemma_dv_bound(g1);
    lemma_dv_bound(g2);
    let p = pow10(k);
    let a1 = digits_value(i1);
    let a2 = digits_value(i2);
    let b1 = digits_value(g1);
    let b2 = digits_value(g2);
    assert(a1 == a2 && b1 == b2) by (nonlinear_arith)
        requires
            a1 * p + b1 == a2 * p + b2,
            b1 < p,
            b2 < p,
            a1 >= 0,
            a2 >= 0,
            b1 >= 0,
            b2 >= 0,
    ;
    lemma_whole_unique(i1, i2);
    lemma_dv_injective(g1, g2);
}

/// `same_scaled` compares two values brought to a common lower scale.
proof fn lemma_same_scaled_at(m1: nat, e1: int, m2: nat, e2: int, low: int)
    requires
        low <= e1,
        low <= e2,
    ensures
        same_scaled(m1, e1, m2, e2) <==> m1 * pow10((e1 - low) as nat) == m2 * pow10(
            (e2 - low) as nat,
        ),
{
    if e1 >= e2 {
        lemma_pow10_add((e1 - e2) as nat, (e2 - low) as nat);
        lemma_pow10_step((e2 - low) as nat);
        let p = pow10((e1 - e2) as nat);
        let q = pow10((e2 - low) as nat);
        assert((m1 * (p * q) == m2 * q) <==> (m1 * p == m2)) by (nonlinear_arith)
            requires
                q > 0,
        ;
    } else {
        lemma_pow10_add((e2 - e1) as nat, (e1 - low) as nat);
        lemma_pow10_step((e1 - low) as nat);
        let p = pow10((e2 - e1) as nat);
        let q = pow10((e1 - low) as nat);
        assert((m1 * q == m2 * (p * q)) <==> (m1 == m2 * p)) by (nonlinear_arith)
            requires
                q > 0,
        ;
    }
}

/// Two values that each equal a third, at their scales, equal each other.
proof fn lemma_same_scaled_trans(m: nat, s: int, v1: nat, e1: int, v2: nat, e2: int)
    requires
        same_scaled(m, s, v1, e1),
        same_scaled(m, s, v2, e2),
    ensures
        same_scaled(v1, e1, v2, e2),
{
    let low = if s <= e1 && s <= e2 {
        s
    } else if e1 <= e2 {
        e1
    } else {
        e2
    };
    lemma_same_scaled_at(m, s, v1, e1, low);
    lemma_same_scaled_at(m, s, v2, e2, low);
    lemma_same_scaled_at(v1, e1, v2, e2, low);
}

/// A number has at most one normal form: the sign, the value and the
/// canonical shape leave no choice.
pub proof fn lemma_normal_form_unique(s: Seq<char>, t1: Seq<char>, t2: Seq<char>)
    requires
        normal_form_of(s, t1),
        normal_form_of(s, t2),
    ensures
        t1 == t2,
{
    let (n1, w1, f1, x1, en1, e1, i1, g1) = choose|
        n1: bool,
        w1: Seq<char>,
        f1: Seq<char>,
        x1: Seq<char>,
        en1: bool,
        e1: Seq<char>,
        i1: Seq<char>,
        g1: Seq<char>,
    |
        #![trigger plain_of(s, t1, n1, w1, f1, x1, en1, e1, i1, g1)]
        plain_of(s, t1, n1, w1, f1, x1, en1, e1, i1, g1);
    let (n2, w2, f2, x2, en2, e2, i2, g2) = choose|
        n2: bool,
        w2: Seq<char>,
        f2: Seq<char>,
        x2: Seq<char>,
        en2: bool,
        e2: Seq<char>,
        i2: Seq<char>,
        g2: Seq<char>,
    |
        #![trigger plain_of(s, t2, n2, w2, f2, x2, en2, e2, i2, g2)]
        plain_of(s, t2, n2, w2, f2, x2, en2, e2, i2, g2);
    lemma_number_text_unique(s, n1, w1, f1, x1, en1, e1, n2, w2, f2, x2, en2, e2);
    lemma_same_scaled_trans(
        digits_value(w1 + f1),
        scale_of(f1, en1, e1),
        digits_value(i1 + g1),
        -(g1.len() as int),
        digits_value(i2 + g2),
        -(g2.len() as int),
    );
    lemma_plain_unique(i1, g1, i2, g2);
}

/// How far the digits of a number move up (`up`) and down (`down`) once
/// its exponent and fraction are applied.
pub open spec fn shift_up(f: Seq<char>, eneg: bool, e: Seq<char>, dropped: nat) -> int {
    dropped + (if eneg {
        0
    } else {
        digits_value(e) as int
    })
}

pub open spec fn shift_down(f: Seq<char>, eneg: bool, e: Seq<char>, dropped: nat) -> int {
    f.len() + (if eneg {
        digits_value(e) as int
    } else {
        0
    })
}

/// The length of the normal form of a number with significant digits
/// `d` (not all zero) and `dropped` trailing zeros.
pub open spec fn plain_len(
    neg: bool,
    f: Seq<char>,
    eneg: bool,
    e: Seq<char>,
    d: Seq<char>,
    dropped: nat,
) -> int {
    let up = shift_up(f, eneg, e, dropped);
    let down = shift_down(f, eneg, e, dropped);
    sign_len(neg) + if up >= down {
        d.len() + up - down
    } else if down - up < d.len() {
        d.len() + 1int
    } else {
        down - up + 2
    }
}

/// A number whose significant digits are not all zero has a normal form,
/// of the length `plain_len` gives.
proof fn lemma_normal_form_exists(
    s: Seq<char>,
    neg: bool,
    w: Seq<char>,
    f: Seq<char>,
    x: Seq<char>,
    eneg: bool,
    e: Seq<char>,
    d: Seq<char>,
    dropped: nat,
) -> (t: Seq<char>)
    requires
        scanned(s, neg, w, f, x, eneg, e, d, dropped),
        d.len() > 0,
    ensures
        normal_form_of(s, t),
        t.len() == plain_len(neg, f, eneg, e, d, dropped),
{
    let up = shift_up(f, eneg, e, dropped);
    let down = shift_down(f, eneg, e, dropped);
    assert(sign_text(neg).len() == sign_len(neg));
    if up >= down {
        let z = (up - down) as nat;
        let t = sign_text(neg) + d + zeros(z);
        lemma_whole_case(s, t, neg, w, f, x, eneg, e, d, dropped, z);
        t
    } else {
        let point = (down - up) as nat;
        if point < d.len() {
            let whole = d.len() - point;
            let t = sign_text(neg) + d.take(whole) + seq!['.'] + d.skip(whole);
            lemma_fraction_case(s, t, neg, w, f, x, eneg, e, d, dropped, point, whole);
            t
        } else {
            let lead = (point - d.len()) as nat;
            let t = sign_text(neg).push('0').push('.') + zeros(lead) + d;
            lemma_small_case(s, t, neg, w, f, x, eneg, e, d, dropped, point, lead);
            t
        }
    }
}

/// No normal form of `s` is at most `MAX_NORMALIZED_LEN` long, given one
/// that is longer.
proof fn lemma_no_short_form(s: Seq<char>, t0: Seq<char>)
    requires
        normal_form_of(s, t0),
        t0.len() > MAX_NORMALIZED_LEN,
    ensures
        !exists|t: Seq<char>| #[trigger] normal_form_of(s, t) && t.len() <= MAX_NORMALIZED_LEN,
{
    assert forall|t: Seq<char>| #[trigger] normal_form_of(s, t) implies t.len()
        > MAX_NORMALIZED_LEN by {
        lemma_normal_form_unique(s, t, t0);
    }
}

/// A number whose digits, moved by the exponent `exponent` (its exponent,
/// capped), would not fit in `MAX_NORMALIZED_LEN` characters has no short
/// normal form.
proof fn lemma_too_long(
    s: Seq<char>,
    neg: bool,
    w: Seq<char>,
    f: Seq<char>,
    x: Seq<char>,
    eneg: bool,
    e: Seq<char>,
    d: Seq<char>,
    dropped: nat,
    exponent: nat,
)
    requires
        scanned(s, neg, w, f, x, eneg, e, d, dropped),
        d.len() > 0,
        s.len() < EXPONENT_CAP / 2,
        d.len() + dropped <= s.len(),
        exponent == capped(e),
        ({
            let up = dropped + (if eneg {
                0
            } else {
                exponent
            });
            let down = f.len() + (if eneg {
                exponent
            } else {
                0
            });
            ||| up >= down && d.len() + up - down + sign_len(neg) > MAX_NORMALIZED_LEN
            ||| up < down && down - up < d.len() && d.len() + 1 + sign_len(neg) > MAX_NORMALIZED_LEN
            ||| up < down && down - up >= d.len() && down - up + 2 + sign_len(neg)
                > MAX_NORMALIZED_LEN
        }),
    ensures
        !exists|t: Seq<char>| #[trigger] normal_form_of(s, t) && t.len() <= MAX_NORMALIZED_LEN,
{
    let t0 = lemma_normal_form_exists(s, neg, w, f, x, eneg, e, d, dropped);
    assert(s.len() == sign_text(neg).len() + w.len() + point_text(f).len() + x.len());
    if digits_value(e) <= EXPONENT_CAP {
        assert(exponent == digits_value(e));
    } else {
        assert(exponent == EXPONENT_CAP);
    }
    assert(t0.len() > MAX_NORMALIZED_LEN);
    lemma_no_short_form(s, t0);
}

/// A text with a normal form is a number.
proof fn lemma_form_is_number(s: Seq<char>, t: Seq<char>)
    requires
        normal_form_of(s, t),
    ensures
        is_number(s),
{
    let (n, w, f, x, en, e, i, g) = choose|
        n: bool,
        w: Seq<char>,
        f: Seq<char>,
        x: Seq<char>,
        en: bool,
        e: Seq<char>,
        i: Seq<char>,
        g: Seq<char>,
    |
        #![trigger plain_of(s, t, n, w, f, x, en, e, i, g)]
        plain_of(s, t, n, w, f, x, en, e, i, g);
    assert(number_text(s, n, w, f, x, en, e));
}

/// The normal form of the number `value` (its plain decimal form: the same
/// sign and value, written without exponent, without leading zeros in the
/// whole part and without trailing zeros in the fraction), when it has at
/// most 16 characters; `None` for a text that is no number, for a number
/// whose normal form is longer, and for a text of half `EXPONENT_CAP`
/// characters or more.
#[verifier::spinoff_prover]
#[verifier::rlimit(40)]
pub fn normalize_number(value: &str) -> (r: Option<String>)
    ensures
        r is Some <==> value@.len() < EXPONENT_CAP / 2 && exists|t: Seq<char>|
            #[trigger] normal_form_of(value@, t) && t.len() <= MAX_NORMALIZED_LEN,
        r matches Some(t) ==> normal_form_of(value@, t@) && t@.len() <= MAX_NORMALIZED_LEN
            && is_plain_decimal(t@),
{
    let s = chars_of(value);
    if s.len() as u64 >= EXPONENT_CAP / 2 {
        return None;
    }
    let (negative, digits, frac_len, exp_negative, exponent, parts) = match scan_number(&s) {
        Some(scanned) => scanned,
        None => {
            proof {
                assert forall|t: Seq<char>| !#[trigger] normal_form_of(value@, t) by {
                    if normal_form_of(value@, t) {
                        lemma_form_is_number(value@, t);
                    }
                }
            }
            return None;
        },
    };
    let ghost (w, f, x, e) = parts@;
    let ghost m = digits_value(w + f);
    let ghost scale = scale_of(f, exp_negative, e);
    let mut out = String::new();
    if negative {
        push_char(&mut out, '-');
    }
    let sign_len: u128 = if negative {
        1
    } else {
        0
    };
    proof {
        reveal_strlit("");
        assert(out@ == sign_text(negative));
    }
    // Drop trailing zeros of the digits; each one moves the point.
    let mut sig = digits.len();
    proof {
        reveal(pow);
        assert(digits@.take(sig as int) =~= digits@);
        assert(pow10(0) == 1);
        assert(digits_value(digits@) * 1 == digits_value(digits@));
    }
    while sig > 0 && digits[sig - 1] == '0'
        invariant
            sig <= digits@.len(),
            all_digits(digits@),
            digits_value(digits@) == digits_value(digits@.take(sig as int)) * pow10(
                (digits@.len() - sig) as nat,
            ),
        decreases sig,
    {
        proof {
            let d = digits@.take(sig as int);
            assert(d =~= digits@.take(sig - 1).push('0'));
            lemma_dv_push(digits@.take(sig - 1), '0');
            lemma_pow10_add(1, (digits@.len() - sig) as nat);
            lemma_pow10_step(0);
            reveal(pow);
            let a = digits_value(digits@.take(sig - 1));
            let p = pow10((digits@.len() - sig) as nat);
            assert((a * 10) * p == a * (10 * p)) by (nonlinear_arith);
            assert(pow10((digits@.len() - sig + 1) as nat) == 10 * p);
        }
        sig -= 1;
    }
    let ghost d = digits@.take(sig as int);
    let dropped = digits.len() - sig;
    proof {
        assert(all_digits(d));
        if sig > 0 {
            assert(d[0] == digits@[0]);
            assert(d.last() == digits@[sig - 1]);
        }
        assert(m == digits_value(d) * pow10(dropped as nat));
    }
    if sig == 0 {
        push_char(&mut out, '0');
        proof {
            assert(d =~= Seq::<char>::empty());
            lemma_zero_case(value@, out@, negative, w, f, x, exp_negative, e, dropped as nat);
        }
        return Some(out);
    }
    let shift_up: u128 = (dropped as u128) + (if exp_negative {
        0
    } else {
        exponent as u128
    });
    let shift_down: u128 = (frac_len as u128) + (if exp_negative {
        exponent as u128
    } else {
        0
    });
    let budget = MAX_NORMALIZED_LEN as u128;
    if shift_up >= shift_down {
        let zero_count = shift_up - shift_down;
        if (sig as u128) + zero_count + sign_len > budget {
            proof {
                lemma_too_long(
                    value@,
                    negative,
                    w,
                    f,
                    x,
                    exp_negative,
                    e,
                    d,
                    dropped as nat,
                    exponent as nat,
                );
            }
            return None;
        }
        proof {
            assert(exponent == digits_value(e));
        }
        push_digits(&mut out, &digits, 0, sig);
        push_zeros(&mut out, zero_count);
        proof {
            assert(digits@.subrange(0, sig as int) =~= d);
            lemma_whole_case(
                value@,
                out@,
                negative,
                w,
                f,
                x,
                exp_negative,
                e,
                d,
                dropped as nat,
                zero_count as nat,
            );
        }
    } else {
        let point = shift_down - shift_up;
        if point < sig as u128 {
            if (sig as u128) + 1 + sign_len > budget {
                proof {
                    lemma_too_long(
                        value@,
                        negative,
                        w,
                        f,
                        x,
                        exp_negative,
                        e,
                        d,
                        dropped as nat,
                        exponent as nat,
                    );
                }
                return None;
            }
            proof {
                assert(exponent == digits_value(e));
            }
            let whole = sig - point as usize;
            push_digits(&mut out, &digits, 0, whole);
            let ghost head = out@;
            push_char(&mut out, '.');
            let ghost dotted = out@;
            push_digits(&mut out, &digits, whole, sig);
            proof {
                assert(digits@.subrange(0, whole as int) =~= d.take(whole as int));
                assert(digits@.subrange(whole as int, sig as int) =~= d.skip(whole as int));
                assert(head == sign_text(negative) + d.take(whole as int));
                assert(dotted =~= sign_text(negative) + d.take(whole as int) + seq!['.']);
                assert(out@ =~= sign_text(negative) + d.take(whole as int) + seq!['.'] + d.skip(
                    whole as int,
                ));
                lemma_fraction_case(
                    value@,
                    out@,
                    negative,
                    w,
                    f,
                    x,
                    exp_negative,
                    e,
                    d,
                    dropped as nat,
                    point as nat,
                    whole as int,
                );
            }
        } else {
            if point + 2 + sign_len > budget {
                proof {
                    lemma_too_long(
                        value@,
                        negative,
                        w,
                        f,
                        x,
                        exp_negative,
                        e,
                        d,
                        dropped as nat,
                        exponent as nat,
                    );
                }
                return None;
            }
            proof {
                assert(exponent == digits_value(e));
            }
            push_char(&mut out, '0');
            push_char(&mut out, '.');
            let lead = point - sig as u128;
            push_zeros(&mut out, lead);
            push_digits(&mut out, &digits, 0, sig);
            proof {
                assert(digits@.subrange(0, sig as int) =~= d);
                lemma_small_case(
                    value@,
                    out@,
                    negative,
                    w,
                    f,
                    x,
                    exp_negative,
                    e,
                    d,
                    dropped as nat,
                    point as nat,
                    lead as nat,
                );
            }
        }
    }
    Some(out)
}

/// The facts the cases of normalization share: `s` is a number whose
/// digits `w + f` are `d` followed by `dropped` zeros.
pub open spec fn scanned(
    s: Seq<char>,
    neg: bool,
    w: Seq<char>,
    f: Seq<char>,
    x: Seq<char>,
    eneg: bool,
    e: Seq<char>,
    d: Seq<char>,
    dropped: nat,
) -> bool {
    &&& number_text(s, neg, w, f, x, eneg, e)
    &&& all_digits(d)
    &&& digits_value(w + f) == digits_value(d) * pow10(dropped)
    &&& (d.len() > 0 ==> d[0] != '0' && d.last() != '0')
}

proof fn lemma_zero_case(
    s: Seq<char>,
    t: Seq<char>,
    neg: bool,
    w: Seq<char>,
    f: Seq<char>,
    x: Seq<char>,
    eneg: bool,
    e: Seq<char>,
    dropped: nat,
)
    requires
        scanned(s, neg, w, f, x, eneg, e, Seq::empty(), dropped),
        t == sign_text(neg).push('0'),
    ensures
        is_plain_decimal(t),
        normal_form_of(s, t),
{
    reveal(pow);
    let m = digits_value(w + f);
    assert(digits_value(Seq::<char>::empty()) == 0);
    assert(m == 0) by (nonlinear_arith)
        requires
            m == 0 * pow10(dropped),
    ;
    let i = seq!['0'];
    let f2 = Seq::<char>::empty();
    assert(t =~= sign_text(neg) + i + point_text(f2));
    assert(digits_value(i + f2) == 0) by {
        assert(i + f2 =~= i);
        assert(i.drop_last() =~= Seq::<char>::empty());
    }
    let scale = scale_of(f, eneg, e);
    if scale >= 0 {
        assert(0 * pow10(scale as nat) == 0);
    } else {
        assert(0 * pow10((-scale) as nat) == 0);
    }
    assert(plain_of(s, t, neg, w, f, x, eneg, e, i, f2));
    lemma_plain_decimal(neg, i, f2);
}

proof fn lemma_whole_case(
    s: Seq<char>,
    t: Seq<char>,
    neg: bool,
    w: Seq<char>,
    f: Seq<char>,
    x: Seq<char>,
    eneg: bool,
    e: Seq<char>,
    d: Seq<char>,
    dropped: nat,
    z: nat,
)
    requires
        scanned(s, neg, w, f, x, eneg, e, d, dropped),
        d.len() > 0,
        z == dropped + scale_of(f, eneg, e),
        t == sign_text(neg) + d + zeros(z),
    ensures
        is_plain_decimal(t),
        normal_form_of(s, t),
{
    let i = d + zeros(z);
    let f2 = Seq::<char>::empty();
    assert(t =~= sign_text(neg) + i + point_text(f2));
    assert(all_digits(i)) by {
        assert forall|k: int| 0 <= k < i.len() implies is_digit_char(#[trigger] i[k]) by {
            if k < d.len() {
                assert(i[k] == d[k]);
            }
        }
    }
    lemma_dv_concat(d, zeros(z));
    lemma_dv_zeros(z);
    assert(i + f2 =~= i);
    lemma_scaled_whole(digits_value(w + f), scale_of(f, eneg, e), digits_value(d), dropped, z);
    reveal(pow);
    assert(pow10(0) == 1);
    assert(plain_of(s, t, neg, w, f, x, eneg, e, i, f2));
    lemma_plain_decimal(neg, i, f2);
}

proof fn lemma_fraction_case(
    s: Seq<char>,
    t: Seq<char>,
    neg: bool,
    w: Seq<char>,
    f: Seq<char>,
    x: Seq<char>,
    eneg: bool,
    e: Seq<char>,
    d: Seq<char>,
    dropped: nat,
    point: nat,
    whole: int,
)
    requires
        scanned(s, neg, w, f, x, eneg, e, d, dropped),
        0 < whole < d.len(),
        point == d.len() - whole,
        scale_of(f, eneg, e) == -(point as int) - dropped,
        t == sign_text(neg) + d.take(whole) + seq!['.'] + d.skip(whole),
    ensures
        is_plain_decimal(t),
        normal_form_of(s, t),
{
    let i = d.take(whole);
    let f2 = d.skip(whole);
    assert(t =~= sign_text(neg) + i + point_text(f2));
    assert(i + f2 =~= d);
    assert(all_digits(i)) by {
        assert forall|k: int| 0 <= k < i.len() implies is_digit_char(#[trigger] i[k]) by {
            assert(i[k] == d[k]);
        }
    }
    assert(all_digits(f2)) by {
        assert forall|k: int| 0 <= k < f2.len() implies is_digit_char(#[trigger] f2[k]) by {
            assert(f2[k] == d[k + whole]);
        }
    }
    lemma_scaled_fraction(digits_value(w + f), scale_of(f, eneg, e), digits_value(d), dropped, point);
    assert(plain_of(s, t, neg, w, f, x, eneg, e, i, f2));
    lemma_plain_decimal(neg, i, f2);
}

proof fn lemma_small_case(
    s: Seq<char>,
    t: Seq<char>,
    neg: bool,
    w: Seq<char>,
    f: Seq<char>,
    x: Seq<char>,
    eneg: bool,
    e: Seq<char>,
    d: Seq<char>,
    dropped: nat,
    point: nat,
    lead: nat,
)
    requires
        scanned(s, neg, w, f, x, eneg, e, d, dropped),
        d.len() > 0,
        point == lead + d.len(),
        scale_of(f, eneg, e) == -(point as int) - dropped,
        t == sign_text(neg).push('0').push('.') + zeros(lead) + d,
    ensures
        is_plain_decimal(t),
        normal_form_of(s, t),
{
    let i = seq!['0'];
    let f2 = zeros(lead) + d;
    assert(t =~= sign_text(neg) + i + point_text(f2));
    assert(all_digits(i));
    assert(all_digits(f2)) by {
        assert forall|k: int| 0 <= k < f2.len() implies is_digit_char(#[trigger] f2[k]) by {
            if k >= lead {
                assert(f2[k] == d[k - lead]);
            }
        }
    }
    lemma_dv_leading_zeros(lead, d);
    lemma_dv_leading_zeros(1, f2);
    assert(i =~= zeros(1));
    assert(digits_value(i + f2) == digits_value(d));
    lemma_scaled_fraction(digits_value(w + f), scale_of(f, eneg, e), digits_value(d), dropped, point);
    assert(plain_of(s, t, neg, w, f, x, eneg, e, i, f2));
    lemma_plain_decimal(neg, i, f2);
}

/// A number `m` at scale `scale`, that is `md` followed by `dropped`
/// zeros, is `md` followed by `z` zeros at scale 0, when `z` is
/// `dropped + scale`.
proof fn lemma_scaled_whole(m: nat, scale: int, md: nat, dropped: nat, z: nat)
    requires
        m == md * pow10(dropped),
        z == dropped + scale,
    ensures
        same_scaled(m, scale, md * pow10(z), 0),
{
    if scale >= 0 {
        lemma_pow10_add(dropped, scale as nat);
        assert(md * pow10(dropped) * pow10(scale as nat) == md * (pow10(dropped) * pow10(
            scale as nat,
        ))) by (nonlinear_arith);
    } else {
        lemma_pow10_add(z, (-scale) as nat);
        assert(md * pow10(z) * pow10((-scale) as nat) == md * (pow10(z) * pow10(
            (-scale) as nat,
        ))) by (nonlinear_arith);
    }
}

/// A number `m` at scale `scale`, that is `md` followed by `dropped`
/// zeros, is `md` at scale `-point`, when `scale` is `-point - dropped`.
proof fn lemma_scaled_fraction(m: nat, scale: int, md: nat, dropped: nat, point: nat)
    requires
        m == md * pow10(dropped),
        scale == -(point as int) - dropped,
    ensures
        same_scaled(m, scale, md, -(point as int)),
{
    reveal(pow);
    if dropped == 0 {
        assert(pow10(0) == 1);
        assert(md * 1 == md);
        assert(m * 1 == m);
    }
}

/// The index of the first `c` in `s`, if any.
pub open spec fn find_char(s: Seq<char>, c: char) -> Option<int>
    decreases s.len(),
{
    if s.len() == 0 {
        None
    } else if s[0] == c {
        Some(0)
    } else {
        match find_char(s.drop_first(), c) {
            Some(i) => Some(i + 1),
            None => None,
        }
    }
}

/// `find_char` gives the first occurrence.
pub proof fn lemma_find_char(s: Seq<char>, c: char)
    ensures
        find_char(s, c) matches Some(d) ==> 0 <= d < s.len() && s[d] == c && forall|j: int|
            0 <= j < d ==> s[j] != c,
        find_char(s, c) is None ==> forall|j: int| 0 <= j < s.len() ==> s[j] != c,
    decreases s.len(),
{
    if s.len() > 0 && s[0] != c {
        lemma_find_char(s.drop_first(), c);
        assert forall|j: int| 1 <= j < s.len() implies s[j] == s.drop_first()[j - 1] by {}
    }
}

/// A first occurrence is what `find_char` gives.
pub proof fn lemma_find_char_at(s: Seq<char>, c: char, d: int)
    requires
        0 <= d < s.len(),
        s[d] == c,
        forall|j: int| 0 <= j < d ==> s[j] != c,
    ensures
        find_char(s, c) == Some(d),
    decreases s.len(),
{
    if d > 0 {
        lemma_find_char_at(s.drop_first(), c, d - 1);
    }
}

/// The number of digits after the point of a plain decimal (0 without one).
pub open spec fn decimals_of(s: Seq<char>) -> nat {
    match find_char(s, '.') {
        Some(d) => (s.len() - d - 1) as nat,
        None => 0,
    }
}

/// `count` zeros.
pub open spec fn zeros(count: nat) -> Seq<char> {
    Seq::new(count, |i: int| '0')
}

/// A plain decimal written with exactly `places` digits after the point.
pub open spec fn with_decimals(s: Seq<char>, places: nat) -> Seq<char> {
    if places == 0 {
        s
    } else if find_char(s, '.') is Some {
        s + zeros((places - decimals_of(s)) as nat)
    } else {
        s.push('.') + zeros(places)
    }
}

/// A plain decimal holds no line feed, nor does it after padding with
/// zeros.
pub proof fn lemma_with_decimals_plain(s: Seq<char>, places: nat)
    requires
        is_plain_decimal(s),
    ensures
        !s.contains('\n'),
        !with_decimals(s, places).contains('\n'),
{
    assert forall|k: int| 0 <= k < s.len() implies s[k] != '\n' by {
        assert(is_digit_char(s[k]) || s[k] == '-' || s[k] == '.');
    }
    let w = with_decimals(s, places);
    assert forall|k: int| 0 <= k < w.len() implies w[k] != '\n' by {
        if k < s.len() {
            assert(w[k] == s[k]);
        }
    }
}

/// Writes the plain decimal `value` with `places` digits after the point,
/// adding zeros; `value` must not have more decimals than that.
pub fn pad_decimals(value: &str, places: usize) -> (r: String)
    requires
        decimals_of(value@) <= places,
    ensures
        r@ == with_decimals(value@, places as nat),
{
    let mut out = String::from_str(value);
    if places == 0 {
        return out;
    }
    let v = chars_of(value);
    let dot = find_first(&v, '.');
    let missing = match dot {
        Some(d) => {
            proof {
                lemma_find_char(v@, '.');
            }
            places - (v.len() - d - 1)
        },
        None => {
            push_char(&mut out, '.');
            places
        },
    };
    let ghost base = out@;
    let mut z: usize = 0;
    while z < missing
        invariant
            z <= missing,
            out@ == base + zeros(z as nat),
        decreases missing - z,
    {
        push_char(&mut out, '0');
        assert(base + zeros((z + 1) as nat) =~= (base + zeros(z as nat)).push('0'));
        z += 1;
    }
    assert(base + zeros(missing as nat) == with_decimals(value@, places as nat));
    out
}

/// The number of digits after the point of `value` (0 without one).
pub fn decimals_count(value: &str) -> (n: usize)
    ensures
        n == decimals_of(value@),
{
    let v = chars_of(value);
    match find_first(&v, '.') {
        Some(d) => {
            proof {
                lemma_find_char(v@, '.');
            }
            v.len() - d - 1
        },
        None => 0,
    }
}

/// The index of the first `c` in `v`, if any.
pub fn find_first(v: &Vec<char>, c: char) -> (r: Option<usize>)
    ensures
        r matches Some(d) ==> find_char(v@, c) == Some(d as int),
        r is None ==> find_char(v@, c) is None,
{
    let mut i: usize = 0;
    while i < v.len()
        invariant
            i <= v@.len(),
            forall|j: int| 0 <= j < i ==> v@[j] != c,
        decreases v@.len() - i,
    {
        if v[i] == c {
            proof {
                lemma_find_char_at(v@, c, i as int);
            }
            return Some(i);
        }
        i += 1;
    }
    proof {
        lemma_find_char(v@, c);
        if find_char(v@, c) is Some {
            let d = find_char(v@, c)->0;
            assert(v@[d] == c);
        }
    }
    None
}

} // verus!
