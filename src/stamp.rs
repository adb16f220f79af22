//! Timestamps and durations.
//!
//! A time is a signed count of microseconds since the epoch, and a duration a
//! signed count of microseconds. On the wire both are written as decimal
//! seconds with an optional fraction (`1700000000`, `12.5`).

use vstd::prelude::*;
use crate::text::sub_chars;

verus! {

/// Microseconds in one second.
pub const MICROS: i64 = 1000000;

/// The largest whole number of seconds that the protocol accepts in a number.
pub const MAX_SECS: u64 = 1000000000000;

/// Bound on the magnitude of every time and duration that the library handles;
/// a sum or difference of two of them fits in an `i64`.
pub const TIME_LIMIT: i64 = 4000000000000000000;

/// A time or duration within the bounds that the library handles.
pub open spec fn time_ok(t: int) -> bool {
    -TIME_LIMIT <= t <= TIME_LIMIT
}

pub open spec fn is_digit(c: char) -> bool {
    '0' <= c && c <= '9'
}

pub open spec fn digit_val(c: char) -> nat {
    ((c as u32) - ('0' as u32)) as nat
}

/// The character of a decimal digit.
pub open spec fn digit_char(d: nat) -> char {
    if d == 0 { '0' }
    else if d == 1 { '1' }
    else if d == 2 { '2' }
    else if d == 3 { '3' }
    else if d == 4 { '4' }
    else if d == 5 { '5' }
    else if d == 6 { '6' }
    else if d == 7 { '7' }
    else if d == 8 { '8' }
    else { '9' }
}

/// The value of a run of decimal digits (most significant first).
pub open spec fn digits_val(s: Seq<char>) -> nat
    decreases s.len(),
{
    if s.len() == 0 {
        0
    } else {
        digits_val(s.drop_last()) * 10 + digit_val(s.last())
    }
}

pub open spec fn all_digits(s: Seq<char>) -> bool {
    forall|i: int| 0 <= i < s.len() ==> is_digit(#[trigger] s[i])
}

/// Shortest decimal form of `n`.
pub open spec fn dec(n: nat) -> Seq<char>
    decreases n,
{
    if n < 10 {
        seq![digit_char(n)]
    } else {
        dec(n / 10).push(digit_char(n % 10))
    }
}

/// The lowest `w` decimal digits of `n`, with leading zeros.
pub open spec fn fixed(n: nat, w: nat) -> Seq<char>
    decreases w,
{
    if w == 0 {
        Seq::empty()
    } else {
        fixed(n / 10, (w - 1) as nat).push(digit_char(n % 10))
    }
}

/// `s` without its trailing `'0'` characters.
pub open spec fn strip_zeros(s: Seq<char>) -> Seq<char>
    decreases s.len(),
{
    if s.len() > 0 && s.last() == '0' {
        strip_zeros(s.drop_last())
    } else {
        s
    }
}

/// Text of a non-negative time: whole seconds, then a fraction without
/// trailing zeros where there is one.
pub open spec fn nat_text(t: nat) -> Seq<char> {
    if t % 1000000 == 0 {
        dec(t / 1000000)
    } else {
        dec(t / 1000000) + seq!['.'] + strip_zeros(fixed(t % 1000000, 6))
    }
}

/// Text of a time or duration, with a leading `-` when negative.
pub open spec fn time_text(t: int) -> Seq<char> {
    if t < 0 {
        seq!['-'] + nat_text((-t) as nat)
    } else {
        nat_text(t as nat)
    }
}

pub proof fn lemma_digit_char(d: nat)
    requires
        d < 10,
    ensures
        is_digit(digit_char(d)),
        digit_val(digit_char(d)) == d,
{
}

pub proof fn lemma_dec(n: nat)
    ensures
        all_digits(dec(n)),
        dec(n).len() >= 1,
        digits_val(dec(n)) == n,
    decreases n,
{
    lemma_digit_char(n % 10);
    if n >= 10 {
        lemma_dec(n / 10);
        let s = dec(n);
        assert(s.drop_last() =~= dec(n / 10));
        assert(n == (n / 10) * 10 + n % 10);
        assert(digits_val(s) == digits_val(dec(n / 10)) * 10 + digit_val(digit_char(n % 10)));
    } else {
        let s = seq![digit_char(n)];
        assert(s.drop_last() =~= Seq::<char>::empty());
        assert(digits_val(s) == digits_val(s.drop_last()) * 10 + digit_val(s.last()));
    }
}

pub proof fn lemma_fixed(n: nat, w: nat)
    ensures
        all_digits(fixed(n, w)),
        fixed(n, w).len() == w,
        digits_val(fixed(n, w)) == n % pow10(w),
    decreases w,
{
    if w > 0 {
        lemma_fixed(n / 10, (w - 1) as nat);
        lemma_digit_char(n % 10);
        let s = fixed(n, w);
        assert(s.drop_last() =~= fixed(n / 10, (w - 1) as nat));
        let p = pow10((w - 1) as nat);
        assert(p > 0) by { lemma_pow10_pos((w - 1) as nat); }
        vstd::arithmetic::div_mod::lemma_mod_breakdown(n as int, 10, p as int);
        assert(digits_val(s) == digits_val(fixed(n / 10, (w - 1) as nat)) * 10 + digit_val(s.last()));
    }
}

pub open spec fn pow10(w: nat) -> nat
    decreases w,
{
    if w == 0 { 1 } else { 10 * pow10((w - 1) as nat) }
}

pub proof fn lemma_pow10_pos(w: nat)
    ensures
        pow10(w) > 0,
    decreases w,
{
    if w > 0 {
        lemma_pow10_pos((w - 1) as nat);
    }
}

pub proof fn lemma_pow10_6()
    ensures
        pow10(0) == 1,
        pow10(1) == 10,
        pow10(2) == 100,
        pow10(3) == 1000,
        pow10(4) == 10000,
        pow10(5) == 100000,
        pow10(6) == 1000000,
{
    reveal_with_fuel(pow10, 7);
    assert(pow10(0) == 1);
    assert(pow10(1) == 10);
    assert(pow10(2) == 100);
    assert(pow10(3) == 1000);
    assert(pow10(4) == 10000);
    assert(pow10(5) == 100000);
}

pub proof fn lemma_digits_val_push(s: Seq<char>, c: char)
    ensures
        digits_val(s.push(c)) == digits_val(s) * 10 + digit_val(c),
{
    assert(s.push(c).drop_last() =~= s);
}

/// The character of a digit below ten.
pub fn digit_char_exec(d: u64) -> (c: char)
    requires
        d < 10,
    ensures
        c == digit_char(d as nat),
{
    if d == 0 { '0' }
    else if d == 1 { '1' }
    else if d == 2 { '2' }
    else if d == 3 { '3' }
    else if d == 4 { '4' }
    else if d == 5 { '5' }
    else if d == 6 { '6' }
    else if d == 7 { '7' }
    else if d == 8 { '8' }
    else { '9' }
}

/// Appends the shortest decimal form of `n`.
pub fn push_dec(out: &mut Vec<char>, n: u64)
    ensures
        final(out)@ == old(out)@ + dec(n as nat),
    decreases n,
{
    if n >= 10 {
        push_dec(out, n / 10);
    }
    out.push(digit_char_exec(n % 10));
    proof {
        if n < 10 {
            assert(old(out)@ + dec(n as nat) =~= old(out)@.push(digit_char(n as nat)));
        } else {
            assert(old(out)@ + dec(n as nat) =~= (old(out)@ + dec((n / 10) as nat)).push(
                digit_char((n % 10) as nat)));
        }
    }
}

/// Appends the lowest `w` digits of `n`, with leading zeros.
pub fn push_fixed(out: &mut Vec<char>, n: u64, w: u64)
    ensures
        final(out)@ == old(out)@ + fixed(n as nat, w as nat),
    decreases w,
{
    if w == 0 {
        assert(old(out)@ + fixed(n as nat, 0) =~= old(out)@);
        return;
    }
    push_fixed(out, n / 10, w - 1);
    out.push(digit_char_exec(n % 10));
    assert(old(out)@ + fixed(n as nat, w as nat) =~= (old(out)@ + fixed((n / 10) as nat, (w - 1) as nat)).push(
        digit_char((n % 10) as nat)));
}

/// Appends the text of a time or duration.
pub fn push_time(out: &mut Vec<char>, t: i64)
    requires
        time_ok(t as int),
    ensures
        final(out)@ == old(out)@ + time_text(t as int),
{
    let ghost start = old(out)@;
    let m: u64 = if t < 0 {
        out.push('-');
        (-t) as u64
    } else {
        t as u64
    };
    let ghost mid = out@;
    push_dec(out, m / 1000000);
    let frac: u64 = m % 1000000;
    if frac != 0 {
        out.push('.');
        let mut digits: Vec<char> = Vec::new();
        push_fixed(&mut digits, frac, 6);
        let mut n: usize = digits.len();
        assert(digits@.subrange(0, n as int) =~= fixed(frac as nat, 6));
        while n > 0 && digits[n - 1] == '0'
            invariant
                n <= digits@.len(),
                strip_zeros(digits@.subrange(0, n as int)) == strip_zeros(fixed(frac as nat, 6)),
            decreases n,
        {
            assert(digits@.subrange(0, n as int).drop_last() =~= digits@.subrange(0, n - 1));
            n = n - 1;
        }
        proof {
            assert(digits@ =~= digits@.subrange(0, digits@.len() as int));
        }
        let mut i: usize = 0;
        let ghost before = out@;
        while i < n
            invariant
                n <= digits@.len(),
                i <= n,
                out@ == before + digits@.subrange(0, i as int),
            decreases n - i,
        {
            out.push(digits[i]);
            assert(digits@.subrange(0, i + 1) =~= digits@.subrange(0, i as int).push(digits@[i as int]));
            i = i + 1;
        }
        proof {
            assert(strip_zeros(digits@.subrange(0, n as int)) == digits@.subrange(0, n as int));
            assert(out@ =~= mid + nat_text(m as nat));
        }
    } else {
        assert(out@ =~= mid + nat_text(m as nat));
    }
    assert(out@ =~= start + time_text(t as int));
}

/// Number of leading decimal digits.
pub open spec fn lead_digits(s: Seq<char>) -> nat
    decreases s.len(),
{
    if s.len() > 0 && is_digit(s[0]) {
        1 + lead_digits(s.drop_first())
    } else {
        0
    }
}

/// Length of the number that starts `s`: digits, then optionally a `'.'` and
/// more digits; zero where `s` does not start with a digit.
pub open spec fn num_len(s: Seq<char>) -> nat {
    let d = lead_digits(s);
    if d == 0 {
        0
    } else if d < s.len() && s[d as int] == '.' {
        d + 1 + lead_digits(s.subrange(d + 1 as int, s.len() as int))
    } else {
        d
    }
}

/// Whole seconds of the number that starts `s`.
pub open spec fn num_secs(s: Seq<char>) -> nat {
    digits_val(s.take(lead_digits(s) as int))
}

/// Digits after the point of the number that starts `s`.
pub open spec fn num_frac(s: Seq<char>) -> Seq<char> {
    if num_len(s) > lead_digits(s) {
        s.subrange(lead_digits(s) + 1 as int, num_len(s) as int)
    } else {
        Seq::empty()
    }
}

/// Microseconds of a fraction: its first six digits, padded with zeros.
pub open spec fn frac_micros(f: Seq<char>) -> nat {
    digits_val((f + Seq::new(6, |i: int| '0')).take(6))
}

/// Value in microseconds of the number that starts `s`.
pub open spec fn num_micros(s: Seq<char>) -> nat {
    num_secs(s) * 1000000 + frac_micros(num_frac(s))
}

/// The number that starts `s` is within the accepted range.
pub open spec fn num_fits(s: Seq<char>) -> bool {
    num_secs(s) <= MAX_SECS
}

proof fn lemma_lead_digits(s: Seq<char>, k: int)
    requires
        0 <= k <= s.len(),
        forall|j: int| 0 <= j < k ==> is_digit(#[trigger] s[j]),
        k == s.len() || !is_digit(s[k]),
    ensures
        lead_digits(s) == k,
    decreases k,
{
    if k > 0 {
        assert forall|j: int| 0 <= j < k - 1 implies is_digit(#[trigger] s.drop_first()[j]) by {
            assert(s.drop_first()[j] == s[j + 1]);
        }
        lemma_lead_digits(s.drop_first(), k - 1);
    }
}

/// End of the run of digits that starts at `i`.
fn scan_digits(cs: &Vec<char>, i: usize, end: usize) -> (j: usize)
    requires
        i <= end <= cs@.len(),
    ensures
        j == i + lead_digits(cs@.subrange(i as int, end as int)),
        i <= j <= end,
        all_digits(cs@.subrange(i as int, j as int)),
{
    let mut j: usize = i;
    while j < end && '0' <= cs[j] && cs[j] <= '9'
        invariant
            i <= j <= end <= cs@.len(),
            forall|k: int| i <= k < j ==> is_digit(#[trigger] cs@[k]),
        decreases end - j,
    {
        j = j + 1;
    }
    proof {
        let s = cs@.subrange(i as int, end as int);
        assert forall|k: int| 0 <= k < j - i implies is_digit(#[trigger] s[k]) by {
            assert(s[k] == cs@[i + k]);
        }
        lemma_lead_digits(s, j - i);
    }
    j
}

/// Scans the number that starts at `i` (see `num_len`), and returns its end
/// and, where there is one within range, its value in microseconds.
pub fn scan_number(cs: &Vec<char>, i: usize, end: usize) -> (r: (usize, Option<i64>))
    requires
        i <= end <= cs@.len(),
    ensures
        r.0 == i + num_len(cs@.subrange(i as int, end as int)),
        r.1 is Some <==> num_len(cs@.subrange(i as int, end as int)) > 0 && num_fits(
            cs@.subrange(i as int, end as int),
        ),
        r.1 matches Some(v) ==> v as int == num_micros(cs@.subrange(i as int, end as int)),
        r.1 matches Some(v) ==> 0 <= v <= MAX_SECS * 1000000 + 999999,
        i <= r.0 <= end,
{
    let ghost s = cs@.subrange(i as int, end as int);
    let d = scan_digits(cs, i, end);
    if d == i {
        return (i, None);
    }
    // whole seconds
    let mut secs: u64 = 0;
    let mut over = false;
    let mut k: usize = i;
    while k < d
        invariant
            i <= k <= d <= end <= cs@.len(),
            all_digits(cs@.subrange(i as int, d as int)),
            over ==> digits_val(cs@.subrange(i as int, k as int)) > MAX_SECS,
            !over ==> secs == digits_val(cs@.subrange(i as int, k as int)) && secs <= MAX_SECS,
        decreases d - k,
    {
        proof {
            assert(cs@.subrange(i as int, k + 1) =~= cs@.subrange(i as int, k as int).push(cs@[k as int]));
            lemma_digits_val_push(cs@.subrange(i as int, k as int), cs@[k as int]);
            assert(is_digit(cs@.subrange(i as int, d as int)[k - i]));
        }
        if !over {
            let dv: u64 = ((cs[k] as u32) - ('0' as u32)) as u64;
            secs = secs * 10 + dv;
            if secs > MAX_SECS {
                over = true;
            }
        }
        k = k + 1;
    }
    assert(s.take(lead_digits(s) as int) =~= cs@.subrange(i as int, d as int));
    // fraction
    let mut fend: usize = d;
    let mut fstart: usize = d;
    if d < end && cs[d] == '.' {
        fstart = d + 1;
        fend = scan_digits(cs, d + 1, end);
        assert(s.subrange(d - i + 1, s.len() as int) =~= cs@.subrange(d + 1, end as int));
    }
    let ghost f = cs@.subrange(fstart as int, fend as int);
    assert(f =~= num_frac(s));
    let ghost padded = f + Seq::new(6, |j: int| '0');
    let mut micros: u64 = 0;
    let mut m: usize = 0;
    while m < 6
        invariant
            fstart <= fend <= cs@.len(),
            f == cs@.subrange(fstart as int, fend as int),
            padded == f + Seq::new(6, |j: int| '0'),
            all_digits(f),
            m <= 6,
            micros == digits_val(padded.take(m as int)),
            micros < pow10(m as nat),
        decreases 6 - m,
    {
        let dv: u64 = if m < fend - fstart {
            assert(is_digit(f[m as int]));
            ((cs[fstart + m] as u32) - ('0' as u32)) as u64
        } else {
            0
        };
        proof {
            assert(padded.take(m + 1) =~= padded.take(m as int).push(padded[m as int]));
            lemma_digits_val_push(padded.take(m as int), padded[m as int]);
            assert(digit_val(padded[m as int]) == dv);
            assert(pow10((m + 1) as nat) == 10 * pow10(m as nat));
            lemma_pow10_6();
            assert(pow10(m as nat) <= 100000) by {
                if m == 0 {} else if m == 1 {} else if m == 2 {} else if m == 3 {} else if m == 4 {} else {}
            }
        }
        micros = micros * 10 + dv;
        m = m + 1;
    }
    if over {
        return (fend, None);
    }
    proof {
        lemma_pow10_6();
    }
    (fend, Some((secs * 1000000 + micros) as i64))
}

proof fn lemma_fixed_zero(w: nat)
    ensures
        fixed(0, w) == Seq::new(w, |i: int| '0'),
    decreases w,
{
    if w > 0 {
        lemma_fixed_zero((w - 1) as nat);
        assert(fixed(0, w) =~= Seq::new(w, |i: int| '0'));
    } else {
        assert(fixed(0, w) =~= Seq::new(w, |i: int| '0'));
    }
}

proof fn lemma_strip_zeros(x: Seq<char>)
    ensures
        strip_zeros(x).len() <= x.len(),
        strip_zeros(x) == x.take(strip_zeros(x).len() as int),
        forall|j: int| strip_zeros(x).len() <= j < x.len() ==> x[j] == '0',
    decreases x.len(),
{
    if x.len() > 0 && x.last() == '0' {
        lemma_strip_zeros(x.drop_last());
        let k = strip_zeros(x).len();
        assert(x.drop_last().take(k as int) =~= x.take(k as int));
        assert forall|j: int| strip_zeros(x).len() <= j < x.len() implies x[j] == '0' by {
            if j < x.len() - 1 {
                assert(x.drop_last()[j] == x[j]);
            }
        }
    } else {
        assert(x.take(x.len() as int) =~= x);
    }
}

/// The text of a non-negative time reads back as the same time, whatever
/// follows it that cannot continue a number.
pub proof fn lemma_num_text(t: nat, rest: Seq<char>)
    requires
        t <= MAX_SECS * 1000000 + 999999,
        rest.len() == 0 || (!is_digit(rest[0]) && rest[0] != '.'),
    ensures
        num_len(nat_text(t) + rest) == nat_text(t).len(),
        num_fits(nat_text(t) + rest),
        num_micros(nat_text(t) + rest) == t,
        forall|j: int| 0 <= j < nat_text(t).len() ==> is_digit(#[trigger] nat_text(t)[j]) || nat_text(t)[j] == '.',
        nat_text(t).len() > 0 && is_digit(nat_text(t)[0]),
{
    let q = t / 1000000;
    let r = t % 1000000;
    vstd::arithmetic::div_mod::lemma_fundamental_div_mod(t as int, 1000000);
    assert(q <= MAX_SECS) by (nonlinear_arith)
        requires
            t == q * 1000000 + r,
            0 <= r < 1000000,
            t <= MAX_SECS * 1000000 + 999999;
    let d = dec(q);
    lemma_dec(q);
    let s = nat_text(t) + rest;
    lemma_fixed_zero(6);
    lemma_fixed(0, 6);
    lemma_pow10_6();
    if r == 0 {
        assert(s =~= d + rest);
        assert forall|j: int| 0 <= j < d.len() implies is_digit(#[trigger] s[j]) by {
            assert(s[j] == d[j]);
        }
        lemma_lead_digits(s, d.len() as int);
        assert(s.take(d.len() as int) =~= d);
        assert((Seq::<char>::empty() + Seq::new(6, |i: int| '0')).take(6) =~= fixed(0, 6));
    } else {
        let x = fixed(r, 6);
        lemma_fixed(r, 6);
        let f = strip_zeros(x);
        lemma_strip_zeros(x);
        assert(s =~= d + seq!['.'] + f + rest);
        assert forall|j: int| 0 <= j < d.len() implies is_digit(#[trigger] s[j]) by {
            assert(s[j] == d[j]);
        }
        lemma_lead_digits(s, d.len() as int);
        let u = s.subrange(d.len() + 1 as int, s.len() as int);
        assert(u =~= f + rest);
        assert forall|j: int| 0 <= j < f.len() implies is_digit(#[trigger] u[j]) by {
            assert(u[j] == f[j]);
            assert(f[j] == x[j]);
        }
        lemma_lead_digits(u, f.len() as int);
        assert(s.take(d.len() as int) =~= d);
        assert(num_frac(s) =~= f);
        assert((f + Seq::new(6, |i: int| '0')).take(6) =~= x);
        assert forall|j: int| 0 <= j < nat_text(t).len() implies is_digit(#[trigger] nat_text(t)[j]) || nat_text(t)[j] == '.' by {
            if j > d.len() {
                assert(nat_text(t)[j] == f[j - d.len() - 1]);
                assert(f[j - d.len() - 1] == x[j - d.len() - 1]);
            }
        }
    }
}

// ------------------------------------------------------------ exponents

/// The largest ttl, in microseconds, that the protocol accepts.
pub const MAX_TTL: u64 = 1000000000000999999;

pub open spec fn is_exp_mark(c: char) -> bool {
    c == 'e' || c == 'E'
}

/// Length of the sign of the exponent that starts `s`.
pub open spec fn exp_sign_len(s: Seq<char>) -> nat {
    if s.len() > 1 && (s[1] == '+' || s[1] == '-') { 1 } else { 0 }
}

/// Length of the exponent `(e|E)[+|-]digits` that starts `s`, or zero.
pub open spec fn exp_len(s: Seq<char>) -> nat {
    if s.len() > 0 && is_exp_mark(s[0]) {
        let d = lead_digits(s.subrange(1 + exp_sign_len(s) as int, s.len() as int));
        if d > 0 { 1 + exp_sign_len(s) + d } else { 0 }
    } else {
        0
    }
}

/// Value of the exponent that starts `s`.
pub open spec fn exp_value(s: Seq<char>) -> int {
    let v = digits_val(s.subrange(1 + exp_sign_len(s) as int, exp_len(s) as int)) as int;
    if exp_sign_len(s) == 1 && s[1] == '-' { -v } else { v }
}

/// The part of `s` after its leading number.
pub open spec fn after_num(s: Seq<char>) -> Seq<char> {
    s.subrange(num_len(s) as int, s.len() as int)
}

/// Length of the ttl that starts `s`: a number, then optionally an exponent.
pub open spec fn ttl_len(s: Seq<char>) -> nat {
    if num_len(s) == 0 { 0 } else { num_len(s) + exp_len(after_num(s)) }
}

/// All digits of the leading number, without its point.
pub open spec fn mantissa(s: Seq<char>) -> Seq<char> {
    s.take(lead_digits(s) as int) + num_frac(s)
}

/// `dv` times ten to the `k`, cut to a whole number.
pub open spec fn scaled(dv: nat, k: int) -> nat {
    if k >= 0 { dv * pow10(k as nat) } else { dv / pow10((-k) as nat) }
}

/// Value in microseconds of the ttl that starts `s`.
pub open spec fn ttl_micros(s: Seq<char>) -> nat {
    if exp_len(after_num(s)) == 0 {
        num_micros(s)
    } else {
        scaled(digits_val(mantissa(s)), 6 + exp_value(after_num(s)) - num_frac(s).len())
    }
}

/// The ttl that starts `s` is within the accepted range.
pub open spec fn ttl_fits(s: Seq<char>) -> bool {
    if exp_len(after_num(s)) == 0 { num_fits(s) } else { ttl_micros(s) <= MAX_TTL }
}

proof fn lemma_pow10_mono(a: nat, b: nat)
    requires
        a <= b,
    ensures
        pow10(a) <= pow10(b),
    decreases b,
{
    if a < b {
        lemma_pow10_mono(a, (b - 1) as nat);
        lemma_pow10_pos((b - 1) as nat);
    }
}

proof fn lemma_pow10_19()
    ensures
        pow10(19) == 10000000000000000000,
{
    reveal_with_fuel(pow10, 20);
}

proof fn lemma_digits_lt(x: Seq<char>)
    requires
        all_digits(x),
    ensures
        digits_val(x) < pow10(x.len()),
    decreases x.len(),
{
    if x.len() > 0 {
        let y = x.drop_last();
        assert(all_digits(y)) by {
            assert forall|i: int| 0 <= i < y.len() implies is_digit(#[trigger] y[i]) by {
                assert(y[i] == x[i]);
            }
        }
        lemma_digits_lt(y);
        assert(is_digit(x[x.len() - 1]));
        let p = pow10(y.len());
        let v = digits_val(y);
        let dl = digit_val(x.last());
        assert(dl <= 9);
        assert(v * 10 + dl < 10 * p) by (nonlinear_arith)
            requires v < p, dl <= 9;
    }
}

proof fn lemma_div_prefix(x: Seq<char>, m: nat)
    requires
        all_digits(x),
        m <= x.len(),
    ensures
        digits_val(x) / pow10(m) == digits_val(x.take(x.len() - m)),
    decreases m,
{
    if m == 0 {
        assert(x.take(x.len() as int) =~= x);
        assert(pow10(0) == 1);
    } else {
        let y = x.drop_last();
        assert(all_digits(y)) by {
            assert forall|i: int| 0 <= i < y.len() implies is_digit(#[trigger] y[i]) by {
                assert(y[i] == x[i]);
            }
        }
        lemma_div_prefix(y, (m - 1) as nat);
        assert(y.take(y.len() - (m - 1)) =~= x.take(x.len() - m));
        let v = digits_val(y);
        let dl = digit_val(x.last());
        assert(is_digit(x[x.len() - 1]));
        lemma_pow10_pos((m - 1) as nat);
        let p = pow10((m - 1) as nat);
        vstd::arithmetic::div_mod::lemma_div_denominator((v * 10 + dl) as int, 10, p as int);
        assert((v * 10 + dl) / 10 == v) by (nonlinear_arith)
            requires dl <= 9;
        assert(pow10(m) == 10 * p);
        assert(digits_val(x) == v * 10 + dl);
        assert((v * 10 + dl) / (10 * p) == ((v * 10 + dl) / 10) / p);
        assert(digits_val(x) / pow10(m) == v / p);
    }
}

/// The digit run `cs[lo..hi]` read up to `cap`: its value where it is at most
/// `cap`, else `None`.
fn capped_val(cs: &Vec<char>, lo: usize, hi: usize, cap: u64) -> (r: Option<u64>)
    requires
        lo <= hi <= cs@.len(),
        all_digits(cs@.subrange(lo as int, hi as int)),
        cap <= MAX_TTL,
    ensures
        match r {
            Some(v) => v == digits_val(cs@.subrange(lo as int, hi as int)) && v <= cap,
            None => digits_val(cs@.subrange(lo as int, hi as int)) > cap,
        },
{
    let mut v: u64 = 0;
    let mut over = false;
    let mut k: usize = lo;
    while k < hi
        invariant
            lo <= k <= hi <= cs@.len(),
            cap <= MAX_TTL,
            all_digits(cs@.subrange(lo as int, hi as int)),
            over ==> digits_val(cs@.subrange(lo as int, k as int)) > cap,
            !over ==> v == digits_val(cs@.subrange(lo as int, k as int)) && v <= cap,
        decreases hi - k,
    {
        proof {
            assert(cs@.subrange(lo as int, k + 1) =~= cs@.subrange(lo as int, k as int).push(cs@[k as int]));
            lemma_digits_val_push(cs@.subrange(lo as int, k as int), cs@[k as int]);
            assert(is_digit(cs@.subrange(lo as int, hi as int)[k - lo]));
        }
        if !over {
            let dv: u64 = ((cs[k] as u32) - ('0' as u32)) as u64;
            v = v * 10 + dv;
            if v > cap {
                over = true;
            }
        }
        k = k + 1;
    }
    if over { None } else { Some(v) }
}

/// The exponent that starts at `j`: its length, whether it is negative, and
/// its value where that is below 2^70.
fn scan_exp(cs: &Vec<char>, j: usize, end: usize) -> (r: (usize, bool, Option<u128>))
    requires
        j <= end <= cs@.len(),
    ensures
        ({
            let s = cs@.subrange(j as int, end as int);
            &&& r.0 == exp_len(s)
            &&& j + r.0 <= end
            &&& r.0 > 0 ==> (r.1 <==> exp_value(s) < 0 || (exp_sign_len(s) == 1 && s[1] == '-'))
            &&& r.0 > 0 ==> match r.2 {
                Some(v) => v as int == (if r.1 { -exp_value(s) } else { exp_value(s) }) && v <= 0x400000000000000000u128,
                None => (if r.1 { -exp_value(s) } else { exp_value(s) }) > 0x400000000000000000int,
            }
        }),
{
    let ghost s = cs@.subrange(j as int, end as int);
    if !(j < end && (cs[j] == 'e' || cs[j] == 'E')) {
        return (0, false, None);
    }
    let mut p: usize = j + 1;
    let mut neg = false;
    if p < end && (cs[p] == '+' || cs[p] == '-') {
        neg = cs[p] == '-';
        p = p + 1;
    }
    assert(p == j + 1 + exp_sign_len(s));
    let q = scan_digits(cs, p, end);
    assert(s.subrange(1 + exp_sign_len(s) as int, s.len() as int) =~= cs@.subrange(p as int, end as int));
    if q == p {
        return (0, false, None);
    }
    assert(s.subrange(1 + exp_sign_len(s) as int, exp_len(s) as int) =~= cs@.subrange(p as int, q as int));
    let mut v: u128 = 0;
    let mut big = false;
    let mut k: usize = p;
    while k < q
        invariant
            p <= k <= q <= end <= cs@.len(),
            all_digits(cs@.subrange(p as int, q as int)),
            big ==> digits_val(cs@.subrange(p as int, k as int)) > 0x400000000000000000int,
            !big ==> v == digits_val(cs@.subrange(p as int, k as int)) && v <= 0x400000000000000000u128,
        decreases q - k,
    {
        proof {
            assert(cs@.subrange(p as int, k + 1) =~= cs@.subrange(p as int, k as int).push(cs@[k as int]));
            lemma_digits_val_push(cs@.subrange(p as int, k as int), cs@[k as int]);
            assert(is_digit(cs@.subrange(p as int, q as int)[k - p]));
        }
        if !big {
            let dv: u128 = ((cs[k] as u32) - ('0' as u32)) as u128;
            v = v * 10 + dv;
            if v > 0x400000000000000000u128 {
                big = true;
            }
        }
        k = k + 1;
    }
    if big {
        (q - j, neg, None)
    } else {
        (q - j, neg, Some(v))
    }
}

/// `dv` times ten to the `k`, for `k >= 0`, where that is at most `MAX_TTL`.
fn scale_up(dv: u64, k: u128) -> (r: Option<u64>)
    requires
        dv <= MAX_TTL,
    ensures
        match r {
            Some(v) => v == dv * pow10(k as nat) && v <= MAX_TTL,
            None => dv * pow10(k as nat) > MAX_TTL,
        },
{
    let mut val: u64 = dv;
    let mut cnt: u128 = 0;
    let mut over = false;
    assert(pow10(0) == 1);
    while cnt < k && !over
        invariant
            dv <= MAX_TTL,
            cnt <= k,
            !over ==> val == dv * pow10(cnt as nat) && val <= MAX_TTL,
            over ==> dv * pow10(cnt as nat) > MAX_TTL,
        decreases k - cnt,
    {
        proof {
            assert(pow10((cnt + 1) as nat) == 10 * pow10(cnt as nat));
            assert(dv * (10 * pow10(cnt as nat)) == (dv * pow10(cnt as nat)) * 10) by (nonlinear_arith);
        }
        let nv: u128 = (val as u128) * 10;
        if nv > MAX_TTL as u128 {
            over = true;
        } else {
            val = nv as u64;
        }
        cnt = cnt + 1;
    }
    if over {
        proof {
            lemma_pow10_mono(cnt as nat, k as nat);
            assert(dv * pow10(cnt as nat) <= dv * pow10(k as nat)) by (nonlinear_arith)
                requires pow10(cnt as nat) <= pow10(k as nat);
        }
        None
    } else {
        Some(val)
    }
}

/// The mantissa `mant` with `f` fraction digits, scaled by its exponent
/// `ex` (given as its magnitude `e` where below 2^70, and its sign `neg`),
/// in microseconds, where that is at most `MAX_TTL`.
fn scale_mantissa(mant: &Vec<char>, e: Option<u128>, neg: bool, f: usize, Ghost(ex): Ghost<int>) -> (r: Option<u64>)
    requires
        all_digits(mant@),
        f <= mant@.len(),
        e matches Some(v) ==> v <= 0x400000000000000000u128 && v as int == (if neg { -ex } else { ex }),
        e is None ==> (if neg { -ex } else { ex }) > 0x400000000000000000int,
    ensures
        match r {
            Some(x) => x == scaled(digits_val(mant@), 6 + ex - f) && x <= MAX_TTL,
            None => scaled(digits_val(mant@), 6 + ex - f) > MAX_TTL,
        },
{
    let ghost dval = digits_val(mant@);
    let ghost k: int = 6 + ex - f;
    assert(mant@.subrange(0, mant@.len() as int) =~= mant@);
    let n = mant.len();
    match e {
        None => {
            proof {
                lemma_digits_lt(mant@);
            }
            if !neg {
                proof {
                    lemma_pow10_mono(19, k as nat);
                    lemma_pow10_19();
                }
                match capped_val(&mant, 0, n, MAX_TTL) {
                    Some(0) => Some(0),
                    _ => {
                        proof {
                            if dval >= 1 {
                                assert(dval * pow10(k as nat) >= pow10(k as nat)) by (nonlinear_arith)
                                    requires dval >= 1;
                            }
                        }
                        None
                    },
                }
            } else {
                proof {
                    lemma_pow10_mono(n as nat, (-k) as nat);
                    vstd::arithmetic::div_mod::lemma_basic_div(dval as int, pow10((-k) as nat) as int);
                }
                Some(0)
            }
        },
        Some(ev) => {
            let kk: i128 = if neg { 6 - (ev as i128) - (f as i128) } else { 6 + (ev as i128) - (f as i128) };
            assert(kk as int == k);
            if kk >= 0 {
                match capped_val(&mant, 0, n, MAX_TTL) {
                    None => {
                        proof {
                            lemma_pow10_pos(k as nat);
                            assert(dval * pow10(k as nat) >= dval) by (nonlinear_arith)
                                requires pow10(k as nat) >= 1;
                        }
                        None
                    },
                    Some(dv) => scale_up(dv, kk as u128),
                }
            } else {
                let m: u128 = (-kk) as u128;
                if m > n as u128 {
                    proof {
                        lemma_digits_lt(mant@);
                        lemma_pow10_mono(n as nat, m as nat);
                        vstd::arithmetic::div_mod::lemma_basic_div(dval as int, pow10(m as nat) as int);
                    }
                    Some(0)
                } else {
                    proof {
                        lemma_div_prefix(mant@, m as nat);
                        assert(mant@.take(mant@.len() - m) =~= mant@.subrange(0, n - m));
                        assert(all_digits(mant@.subrange(0, n - m))) by {
                            assert forall|q: int| 0 <= q < n - m implies is_digit(#[trigger] mant@.subrange(0, n - m)[q]) by {
                                assert(mant@.subrange(0, n - m)[q] == mant@[q]);
                            }
                        }
                    }
                    capped_val(&mant, 0, n - (m as usize), MAX_TTL)
                }
            }
        },
    }
}

/// Scans the ttl that starts at `i` (see `ttl_len`), and returns its end and,
/// where it is within range, its value in microseconds.
#[verifier::rlimit(60)]
pub fn scan_ttl(cs: &Vec<char>, i: usize, end: usize) -> (r: (usize, Option<i64>))
    requires
        i <= end <= cs@.len(),
    ensures
        r.0 == i + ttl_len(cs@.subrange(i as int, end as int)),
        i <= r.0 <= end,
        r.1 is Some <==> ttl_len(cs@.subrange(i as int, end as int)) > 0 && ttl_fits(cs@.subrange(i as int, end as int)),
        r.1 matches Some(v) ==> v as int == ttl_micros(cs@.subrange(i as int, end as int)) && 0 <= v <= MAX_TTL,
{
    let ghost s = cs@.subrange(i as int, end as int);
    let (j, v) = scan_number(cs, i, end);
    if j == i {
        return (i, None);
    }
    assert(after_num(s) =~= cs@.subrange(j as int, end as int));
    let (elen, neg, ev) = scan_exp(cs, j, end);
    if elen == 0 {
        return (j, v);
    }
    let ghost a = after_num(s);
    // the mantissa's digits
    let d = scan_digits(cs, i, end);
    assert(s.take(lead_digits(s) as int) =~= cs@.subrange(i as int, d as int));
    let mut mant = sub_chars(cs, i, d);
    let mut f: usize = 0;
    if j > d {
        assert(s.subrange(lead_digits(s) + 1 as int, s.len() as int) =~= cs@.subrange(d + 1 as int, end as int));
        let fe = scan_digits(cs, d + 1, end);
        let mut frac = sub_chars(cs, d + 1, fe);
        assert(num_frac(s) =~= frac@);
        f = frac.len();
        mant.append(&mut frac);
    } else {
        assert(num_frac(s) =~= Seq::<char>::empty());
    }
    assert(mant@ =~= mantissa(s));
    assert(all_digits(mant@)) by {
        assert forall|q: int| 0 <= q < mant@.len() implies is_digit(#[trigger] mant@[q]) by {
            if q < d - i {
                assert(cs@.subrange(i as int, d as int)[q] == mant@[q]);
            }
        }
    }
    assert(mant@.subrange(0, mant@.len() as int) =~= mant@);
    let ghost dval = digits_val(mant@);
    let ghost k: int = 6 + exp_value(a) - f;
    assert(num_frac(s).len() == f);
    let value = scale_mantissa(&mant, ev, neg, f, Ghost(exp_value(a)));
    assert(ttl_micros(s) == scaled(dval, k));
    match value {
        Some(x) => (j + elen, Some(x as i64)),
        None => (j + elen, None),
    }
}

} // verus!
