//! The flat-file store: the format of its files, reading them back, and
//! the day directories that its history is kept in.
//!
//! A store file holds one record per line, `subkey TAB time TAB sign TAB
//! value`, after a header line. The sign is `-` for a value with a ttl or an
//! expired one, else `+`; the value `-` stands for an expiry or deletion.

use vstd::prelude::*;
use crate::database::{Slot, slot_get, slots_unique, slot_put, mark_expired, str_views, sample_views};
use crate::entry::{Entry, EntryV, new_entry};
use crate::message::{lead_not, lemma_lead_not};
use crate::stamp::{TIME_LIMIT, time_ok, time_text, push_time, num_len, num_fits, num_micros, scan_number, MAX_SECS, push_fixed, fixed, dec, push_dec};
use crate::text::{trim, is_ws, chars_of, string_of, trim_bounds, sub_chars, push_str, lemma_trim_plain};
use crate::stamp::{nat_text, is_digit, lemma_num_text};

verus! {

/// The first line of every store file.
pub fn store_header() -> (r: String)
    ensures
        r@ == header_text(),
{
    let mut out: Vec<char> = Vec::new();
    push_str(&mut out, "# NICOS cache store file v2\n");
    string_of(out.as_slice())
}

pub open spec fn header_text() -> Seq<char> {
    "# NICOS cache store file v2\n"@
}

/// `s` cut at each `c`, as `str::split` does.
pub open spec fn split_on(s: Seq<char>, c: char) -> Seq<Seq<char>>
    decreases s.len(),
{
    let i = lead_not(s, c);
    if i >= s.len() {
        seq![s]
    } else {
        seq![s.take(i as int)] + split_on(s.skip(i + 1 as int), c)
    }
}

pub open spec fn char_views(v: Seq<Vec<char>>) -> Seq<Seq<char>> {
    v.map_values(|x: Vec<char>| x@)
}

pub proof fn lemma_lead_not_bounds(s: Seq<char>, c: char)
    ensures
        lead_not(s, c) <= s.len(),
        lead_not(s, c) < s.len() ==> s[lead_not(s, c) as int] == c,
        forall|j: int| 0 <= j < lead_not(s, c) ==> #[trigger] s[j] != c,
    decreases s.len(),
{
    if s.len() > 0 && s[0] != c {
        lemma_lead_not_bounds(s.drop_first(), c);
        assert forall|j: int| 0 <= j < lead_not(s, c) implies #[trigger] s[j] != c by {
            if j > 0 {
                assert(s.drop_first()[j - 1] == s[j]);
            }
        }
    }
}

/// The pieces of `cs[lo..hi]` between the occurrences of `c`.
fn split_range(cs: &Vec<char>, lo: usize, hi: usize, c: char) -> (r: Vec<Vec<char>>)
    requires
        lo <= hi <= cs@.len(),
    ensures
        char_views(r@) == split_on(cs@.subrange(lo as int, hi as int), c),
{
    let ghost s = cs@.subrange(lo as int, hi as int);
    let mut r: Vec<Vec<char>> = Vec::new();
    let mut pos: usize = lo;
    loop
        invariant
            lo <= pos <= hi <= cs@.len(),
            s == cs@.subrange(lo as int, hi as int),
            char_views(r@) + split_on(cs@.subrange(pos as int, hi as int), c) == split_on(s, c),
        decreases hi - pos,
    {
        let ghost rest = cs@.subrange(pos as int, hi as int);
        let mut j: usize = pos;
        while j < hi && cs[j] != c
            invariant
                pos <= j <= hi <= cs@.len(),
                forall|k: int| pos <= k < j ==> #[trigger] cs@[k] != c,
            decreases hi - j,
        {
            j = j + 1;
        }
        proof {
            assert forall|k: int| 0 <= k < j - pos implies #[trigger] rest[k] != c by {
                assert(rest[k] == cs@[pos + k]);
            }
            lemma_lead_not(rest, c, j - pos);
        }
        let piece = sub_chars(cs, pos, j);
        let ghost r0 = r@;
        r.push(piece);
        assert(char_views(r@) =~= char_views(r0).push(piece@));
        if j == hi {
            proof {
                assert(piece@ =~= rest);
                assert(split_on(rest, c) == seq![rest]);
                assert(char_views(r@) =~= char_views(r0) + split_on(rest, c));
            }
            return r;
        }
        proof {
            assert(rest.take(j - pos) =~= piece@);
            assert(rest.skip(j - pos + 1) =~= cs@.subrange(j + 1, hi as int));
            assert(split_on(rest, c) == seq![rest.take(j - pos)] + split_on(rest.skip(j - pos + 1), c));
            assert(char_views(r@) + split_on(cs@.subrange(j + 1, hi as int), c) =~= char_views(r0) + split_on(rest, c));
        }
        pos = j + 1;
    }
}

/// The records of a store file: its lines, trimmed and cut at tabs, that
/// have exactly four fields.
pub open spec fn file_records(text: Seq<char>) -> Seq<Seq<Seq<char>>> {
    split_on(text, '\n').map_values(|l: Seq<char>| split_on(trim(l), '\t')).filter(|r: Seq<Seq<char>>| r.len() == 4)
}

/// The records of a store file (see `file_records`).
pub fn read_records(text: &str) -> (r: Vec<Vec<Vec<char>>>)
    ensures
        r@.map_values(|x: Vec<Vec<char>>| char_views(x@)) == file_records(text@),
{
    let cs = chars_of(text);
    let lines = split_range(&cs, 0, cs.len(), '\n');
    assert(cs@.subrange(0, cs@.len() as int) =~= cs@);
    let ghost ls = split_on(text@, '\n');
    let ghost fields = ls.map_values(|l: Seq<char>| split_on(trim(l), '\t'));
    let mut r: Vec<Vec<Vec<char>>> = Vec::new();
    let mut i: usize = 0;
    while i < lines.len()
        invariant
            i <= lines@.len(),
            char_views(lines@) == ls,
            fields == ls.map_values(|l: Seq<char>| split_on(trim(l), '\t')),
            r@.map_values(|x: Vec<Vec<char>>| char_views(x@)) == fields.take(i as int).filter(|r: Seq<Seq<char>>| r.len() == 4),
        decreases lines@.len() - i,
    {
        let line = &lines[i];
        let (lo, hi) = trim_bounds(line, 0, line.len());
        assert(line@.subrange(0, line@.len() as int) =~= line@);
        let parts = split_range(line, lo, hi, '\t');
        proof {
            assert(ls[i as int] == line@);
            assert(fields[i as int] == char_views(parts@));
            assert(fields.take(i + 1) =~= fields.take(i as int).push(fields[i as int]));
            fields.take(i as int).lemma_filter_push(fields[i as int], |r: Seq<Seq<char>>| r.len() == 4);
        }
        let ghost r0 = r@;
        if parts.len() == 4 {
            r.push(parts);
            assert(r@.map_values(|x: Vec<Vec<char>>| char_views(x@)) =~= r0.map_values(|x: Vec<Vec<char>>| char_views(x@)).push(fields[i as int]));
        }
        i = i + 1;
    }
    assert(fields.take(i as int) =~= fields);
    r
}

/// The time of a record field: the whole field is a number within range.
pub open spec fn field_time(f: Seq<char>) -> Option<int> {
    if num_len(f) > 0 && num_len(f) == f.len() && num_fits(f) {
        Some(num_micros(f) as int)
    } else {
        None
    }
}

fn parse_time_field(f: &Vec<char>) -> (r: Option<i64>)
    ensures
        match r {
            Some(v) => field_time(f@) == Some(v as int) && 0 <= v <= MAX_SECS * 1000000 + 999999,
            None => field_time(f@) is None,
        },
{
    let (end, v) = scan_number(f, 0, f.len());
    assert(f@.subrange(0, f@.len() as int) =~= f@);
    if end == f.len() {
        v
    } else {
        None
    }
}

/// The entry of `sub` after reading the records in order: a `+` record sets
/// a live value, a `-` record with a value sets an expired one, and a `-`
/// record with value `-` marks the current value as expired.
pub open spec fn file_entry(recs: Seq<Seq<Seq<char>>>, sub: Seq<char>) -> Option<EntryV>
    decreases recs.len(),
{
    if recs.len() == 0 {
        None
    } else {
        let r = recs.last();
        let prev = file_entry(recs.drop_last(), sub);
        if r[0] != sub {
            prev
        } else if r[2] == seq!['+'] {
            match field_time(r[1]) {
                Some(t) => Some(new_entry(t, 0, r[3])),
                None => prev,
            }
        } else if r[3] != seq!['-'] {
            match field_time(r[1]) {
                Some(t) => Some(mark_expired(new_entry(t, 0, r[3]))),
                None => prev,
            }
        } else {
            match prev {
                Some(e) => Some(mark_expired(e)),
                None => None,
            }
        }
    }
}

pub open spec fn slot_views(s: Seq<Slot<Entry>>, k: Seq<char>) -> Option<EntryV> {
    match slot_get(s, k) {
        Some(e) => Some(e@),
        None => None,
    }
}

fn chars_is(cs: &Vec<char>, c: char) -> (r: bool)
    ensures
        r == (cs@ == seq![c]),
{
    if cs.len() == 1 && cs[0] == c {
        assert(cs@ =~= seq![c]);
        true
    } else {
        false
    }
}

/// The entries of a store file, by subkey (see `file_entry`).
pub fn load_file(text: &str) -> (r: Vec<Slot<Entry>>)
    ensures
        slots_unique(r@),
        forall|k: Seq<char>| #[trigger] slot_views(r@, k) == file_entry(file_records(text@), k),
        forall|x: Slot<Entry>| r@.contains(x) ==> crate::database::entry_ok(x.val@),
{
    let recs = read_records(text);
    let ghost rv = recs@.map_values(|x: Vec<Vec<char>>| char_views(x@));
    let mut r: Vec<Slot<Entry>> = Vec::new();
    let mut i: usize = 0;
    while i < recs.len()
        invariant
            i <= recs@.len(),
            rv == recs@.map_values(|x: Vec<Vec<char>>| char_views(x@)),
            rv == file_records(text@),
            forall|j: int| 0 <= j < rv.len() ==> (#[trigger] rv[j]).len() == 4,
            slots_unique(r@),
            forall|k: Seq<char>| #[trigger] slot_views(r@, k) == file_entry(rv.take(i as int), k),
            forall|x: Slot<Entry>| r@.contains(x) ==> crate::database::entry_ok(x.val@),
        decreases recs@.len() - i,
    {
        let rec = &recs[i];
        proof {
            assert(rv[i as int] == char_views(rec@));
            assert(rv[i as int].len() == 4);
            assert(rv.take(i + 1).drop_last() =~= rv.take(i as int));
            assert(rv.take(i + 1).last() == rv[i as int]);
            assert(char_views(rec@)[0] == rec@[0]@);
            assert(char_views(rec@)[1] == rec@[1]@);
            assert(char_views(rec@)[2] == rec@[2]@);
            assert(char_views(rec@)[3] == rec@[3]@);
        }
        let sub = string_of(rec[0].as_slice());
        let ghost before = r@;
        if chars_is(&rec[2], '+') {
            match parse_time_field(&rec[1]) {
                Some(t) => {
                    slot_put(&mut r, &sub, Entry::new_owned(t, 0, string_of(rec[3].as_slice())));
                },
                None => {},
            }
        } else if !chars_is(&rec[3], '-') {
            match parse_time_field(&rec[1]) {
                Some(t) => {
                    let e = Entry::new_owned(t, 0, string_of(rec[3].as_slice())).expired();
                    slot_put(&mut r, &sub, e);
                },
                None => {},
            }
        } else {
            match crate::database::find_slot(&r, &sub) {
                Some(j) => {
                    proof {
                        crate::database::lemma_slot_idx(r@, sub@);
                        assert(r@.contains(r@[j as int]));
                    }
                    let e = r[j].val.dup().expired();
                    slot_put(&mut r, &sub, e);
                },
                None => {},
            }
        }
        proof {
            assert forall|k: Seq<char>| #[trigger] slot_views(r@, k) == file_entry(rv.take(i + 1), k) by {
                let t = rv.take(i + 1);
                assert(t.drop_last() =~= rv.take(i as int));
                if k != sub@ {
                    assert(slot_get(r@, k) == slot_get(before, k));
                    assert(t.last()[0] != k);
                } else {
                    assert(t.last()[0] == k);
                    assert(t.last()[1] == rec@[1]@);
                    assert(t.last()[2] == rec@[2]@);
                    assert(t.last()[3] == rec@[3]@);
                    assert(file_entry(rv.take(i as int), k) == slot_views(before, k));
                }
            }
        }
        i = i + 1;
    }
    assert(rv.take(i as int) =~= rv);
    r
}

/// The record that stores `e` under `sub`: the sign is `-` for an entry with
/// a ttl or an expired one, and the value `-` stands for an expired entry.
pub open spec fn record_text(sub: Seq<char>, e: EntryV) -> Seq<char> {
    sub + seq!['\t'] + time_text(e.time) + seq!['\t'] + (if e.ttl > 0 || e.expired { seq!['-'] } else { seq!['+'] })
        + seq!['\t'] + (if e.expired { seq!['-'] } else { e.value }) + seq!['\n']
}

/// The line that stores `entry` under `subkey` in a store file.
pub fn store_line(subkey: &str, entry: &Entry) -> (r: String)
    requires
        time_ok(entry.time as int),
    ensures
        r@ == record_text(subkey@, entry@),
{
    let mut out: Vec<char> = Vec::new();
    push_str(&mut out, subkey);
    out.push('\t');
    push_time(&mut out, entry.time);
    out.push('\t');
    out.push(if entry.ttl > 0 || entry.expired { '-' } else { '+' });
    out.push('\t');
    if entry.expired {
        out.push('-');
    } else {
        push_str(&mut out, entry.value.as_str());
    }
    out.push('\n');
    assert(out@ =~= record_text(subkey@, entry@));
    string_of(out.as_slice())
}

/// The samples of `sub` that a store file holds within `[from, to]`, in file
/// order: a time that does not read counts as zero, and the value `-` as
/// empty.
pub open spec fn hist_samples(recs: Seq<Seq<Seq<char>>>, sub: Seq<char>, from: int, to: int) -> Seq<(int, Seq<char>)>
    decreases recs.len(),
{
    if recs.len() == 0 {
        Seq::empty()
    } else {
        let r = recs.last();
        let prev = hist_samples(recs.drop_last(), sub, from, to);
        let t = match field_time(r[1]) { Some(t) => t, None => 0 };
        if r[0] == sub && from <= t <= to {
            prev.push((t, if r[3] == seq!['-'] { Seq::empty() } else { r[3] }))
        } else {
            prev
        }
    }
}

/// The history samples of `subkey` in one store file (see `hist_samples`).
pub fn history_samples(text: &str, subkey: &str, from: i64, to: i64) -> (r: Vec<(i64, String)>)
    ensures
        sample_views(r@) == hist_samples(file_records(text@), subkey@, from as int, to as int),
        forall|i: int| 0 <= i < r@.len() ==> time_ok((#[trigger] r@[i]).0 as int),
{
    let recs = read_records(text);
    let ghost rv = recs@.map_values(|x: Vec<Vec<char>>| char_views(x@));
    let sk = chars_of(subkey);
    let mut r: Vec<(i64, String)> = Vec::new();
    let mut i: usize = 0;
    while i < recs.len()
        invariant
            i <= recs@.len(),
            rv == recs@.map_values(|x: Vec<Vec<char>>| char_views(x@)),
            rv == file_records(text@),
            sk@ == subkey@,
            forall|j: int| 0 <= j < rv.len() ==> (#[trigger] rv[j]).len() == 4,
            sample_views(r@) == hist_samples(rv.take(i as int), subkey@, from as int, to as int),
            forall|j: int| 0 <= j < r@.len() ==> time_ok((#[trigger] r@[j]).0 as int),
        decreases recs@.len() - i,
    {
        let rec = &recs[i];
        proof {
            assert(rv[i as int] == char_views(rec@));
            assert(rv[i as int].len() == 4);
            let t = rv.take(i + 1);
            assert(t.drop_last() =~= rv.take(i as int));
            assert(t.last() == rv[i as int]);
            assert(t.last()[0] == rec@[0]@);
            assert(t.last()[1] == rec@[1]@);
            assert(t.last()[3] == rec@[3]@);
        }
        let t: i64 = match parse_time_field(&rec[1]) {
            Some(v) => v,
            None => 0,
        };
        let same = crate::text::chars_eq(&rec[0], 0, rec[0].len(), &sk);
        assert(rec@[0]@.subrange(0, rec@[0]@.len() as int) =~= rec@[0]@);
        if same && from <= t && t <= to {
            let v = if chars_is(&rec[3], '-') {
                let e: Vec<char> = Vec::new();
                string_of(e.as_slice())
            } else {
                string_of(rec[3].as_slice())
            };
            let ghost r0 = r@;
            r.push((t, v));
            assert(sample_views(r@) =~= sample_views(r0).push((t as int, v@)));
        }
        i = i + 1;
    }
    assert(rv.take(i as int) =~= rv);
    r
}

/// A calendar date.
pub struct Date {
    pub year: i32,
    pub month: u8,
    pub day: u8,
}

/// The name for the UTC calendar date of a Unix time in seconds, as the
/// `time` crate computes it; `None` outside the years it represents.
pub uninterp spec fn utc_date(secs: int) -> Option<(int, int, int)>;

/// Relies on `OffsetDateTime::from_unix_timestamp` and `to_calendar_date`:
/// the UTC date of a Unix time, with a month in 1..=12 and a day in 1..=31.
#[verifier::external_body]
fn civil_date(secs: i64) -> (r: Option<Date>)
    ensures
        match r {
            Some(d) => utc_date(secs as int) == Some((d.year as int, d.month as int, d.day as int))
                && 1 <= d.month <= 12 && 1 <= d.day <= 31,
            None => utc_date(secs as int) is None,
        },
{
    match time::OffsetDateTime::from_unix_timestamp(secs) {
        Ok(t) => {
            let (year, month, day) = t.to_calendar_date();
            Some(Date { year, month: month as u8, day })
        },
        Err(_) => None,
    }
}

/// `YYYY/MM-DD`, the store directory of a day.
pub open spec fn day_text(year: int, month: int, day: int) -> Seq<char> {
    (if year < 10000 { fixed(year as nat, 4) } else { dec(year as nat) }) + seq!['/'] + fixed(month as nat, 2)
        + seq!['-'] + fixed(day as nat, 2)
}

/// The store directory of a day.
pub fn day_path(day: &Date) -> (r: String)
    requires
        day.year >= 0,
    ensures
        r@ == day_text(day.year as int, day.month as int, day.day as int),
{
    let mut out: Vec<char> = Vec::new();
    if day.year < 10000 {
        push_fixed(&mut out, day.year as u64, 4);
    } else {
        push_dec(&mut out, day.year as u64);
    }
    out.push('/');
    push_fixed(&mut out, day.month as u64, 2);
    out.push('-');
    push_fixed(&mut out, day.day as u64, 2);
    assert(out@ =~= day_text(day.year as int, day.month as int, day.day as int));
    string_of(out.as_slice())
}

/// Microseconds in a day.
pub const DAY_MICROS: i64 = 86400000000;

/// A number of days whose span exceeds every time the library handles.
const DAY_SHIFT: i64 = 46296297;

/// The number of the day (since the epoch, in UTC) that holds time `t`.
pub open spec fn day_of(t: int) -> int {
    t / 86400000000
}

/// Number of days from the day that holds `from` whose midnight lies before
/// `to`.
pub open spec fn day_count(from: int, to: int) -> nat {
    let s = day_of(from) * 86400000000;
    if to <= s { 0 } else { ((to - s + 86400000000 - 1) / 86400000000) as nat }
}

/// The store directories of the `n` days from day `k0` on, as far as their
/// dates can be told.
pub open spec fn days_spec(k0: int, n: nat) -> Seq<Seq<char>>
    decreases n,
{
    if n == 0 {
        Seq::empty()
    } else {
        let prev = days_spec(k0, (n - 1) as nat);
        match utc_date((k0 + n - 1) * 86400) {
            Some(d) => if d.0 >= 0 { prev.push(day_text(d.0, d.1, d.2)) } else { prev },
            None => prev,
        }
    }
}

/// Every day whose midnight lies in `[from, to)` is among the days that
/// `all_days` lists, and so is the day that holds `from`.
pub proof fn lemma_days_cover(from: int, to: int, k: int)
    requires
        from <= k * 86400000000 < to || k == day_of(from) && from < to,
    ensures
        day_of(from) <= k < day_of(from) + day_count(from, to),
{
    let d = 86400000000int;
    let k0 = day_of(from);
    vstd::arithmetic::div_mod::lemma_fundamental_div_mod(from, d);
    let r = from % d;
    assert(0 <= r < d);
    assert(from == d * k0 + r);
    if k != k0 || !(from < to) {
        assert(k0 <= k) by (nonlinear_arith)
            requires from == d * k0 + r, 0 <= r < d, from <= k * d, d > 0;
    }
    let s = k0 * d;
    assert(to > s) by (nonlinear_arith)
        requires from == d * k0 + r, 0 <= r, s == k0 * d, from < to || k * d < to, from <= k * d || k == k0;
    let n = (to - s + d - 1) / d;
    assert(k - k0 < n) by (nonlinear_arith)
        requires
            n == (to - s + d - 1) / d,
            s == k0 * d,
            k * d < to || k == k0,
            to > s,
            d > 0;
}

/// The store directories of the days from the one that holds `from` up to
/// the last whose midnight lies before `to`.
pub fn all_days(from: i64, to: i64) -> (r: Vec<String>)
    requires
        time_ok(from as int),
        time_ok(to as int),
    ensures
        str_views(r@) == days_spec(day_of(from as int), day_count(from as int, to as int)),
{
    let ghost d: int = 86400000000;
    // `from` moved by a whole number of days, to be non-negative
    let shifted: u64 = (from + DAY_SHIFT * DAY_MICROS) as u64;
    let rem: i64 = (shifted % (DAY_MICROS as u64)) as i64;
    let k0: i64 = (shifted / (DAY_MICROS as u64)) as i64 - DAY_SHIFT;
    proof {
        vstd::arithmetic::div_mod::lemma_hoist_over_denominator(from as int, DAY_SHIFT as int, 86400000000nat);
        vstd::arithmetic::div_mod::lemma_fundamental_div_mod(shifted as int, d);
        vstd::arithmetic::div_mod::lemma_fundamental_div_mod(from as int, d);
        assert(k0 as int == day_of(from as int));
        assert(from as int == d * k0 + rem);
    }
    let mut t: i64 = from - rem;
    let mut k: i64 = k0;
    let mut res: Vec<String> = Vec::new();
    let ghost mut n: nat = 0;
    while t < to
        invariant
            time_ok(to as int),
            time_ok(from as int),
            d == 86400000000,
            k0 as int == day_of(from as int),
            k == k0 + n,
            t == k0 * d + n * d,
            -TIME_LIMIT - d <= k0 * d <= from,
            n == 0 || t < to + d,
            str_views(res@) == days_spec(k0 as int, n),
        decreases to - t + d,
    {
        proof {
            assert(-TIME_LIMIT - d <= t < TIME_LIMIT) by (nonlinear_arith)
                requires t == k0 * d + n * d, -TIME_LIMIT - d <= k0 * d, n >= 0, d > 0, t < to, to <= TIME_LIMIT;
            assert(k * 86400 * 1000000 == t) by (nonlinear_arith)
                requires k == k0 + n, t == k0 * d + n * d, d == 86400000000;
            assert(-50000000 <= k <= 50000000) by (nonlinear_arith)
                requires k * 86400 * 1000000 == t, -TIME_LIMIT - d <= t < TIME_LIMIT, d == 86400000000;
        }
        match civil_date(k * 86400) {
            Some(day) => {
                if day.year >= 0 {
                    let p = day_path(&day);
                    let ghost r0 = res@;
                    res.push(p);
                    assert(str_views(res@) =~= str_views(r0).push(p@));
                }
            },
            None => {},
        }
        t = t + DAY_MICROS;
        k = k + 1;
        proof {
            n = n + 1;
        }
    }
    proof {
        let s = k0 * d;
        assert(n == day_count(from as int, to as int)) by (nonlinear_arith)
            requires
                t == s + n * d,
                to <= t,
                n == 0 || t < to + d,
                s == day_of(from as int) * d,
                d == 86400000000,
                n == 0 ==> s <= from,
                s <= from;
    }
    res
}

/// The day directories that a history query over `[from, to]` reads: only
/// today's where `from` lies within today, else every day from the one that
/// holds `from` on.
pub fn history_days(from: i64, to: i64, today_start: i64, today: &String) -> (r: Vec<String>)
    requires
        time_ok(from as int),
        time_ok(to as int),
    ensures
        from >= today_start ==> r@.len() == 1 && r@[0]@ == today@,
        from < today_start ==> str_views(r@) == days_spec(day_of(from as int), day_count(from as int, to as int)),
{
    if from >= today_start {
        let mut r: Vec<String> = Vec::new();
        r.push(today.clone());
        r
    } else {
        all_days(from, to)
    }
}

/// A write at `time` rolls the store over to a new day once `time` has
/// reached the next midnight.
pub fn needs_rollover(time: i64, next_midnight: i64) -> (r: bool)
    ensures
        r == (time >= next_midnight),
{
    time >= next_midnight
}

/// `s` with every `from` replaced by `to`.
pub open spec fn replace_char(s: Seq<char>, from: char, to: char) -> Seq<char> {
    s.map_values(|c: char| if c == from { to } else { c })
}

fn replace_chars(s: &str, from: char, to: char) -> (r: String)
    ensures
        r@ == replace_char(s@, from, to),
{
    let cs = chars_of(s);
    let mut out: Vec<char> = Vec::new();
    let mut i: usize = 0;
    while i < cs.len()
        invariant
            i <= cs@.len(),
            out@ == replace_char(cs@.take(i as int), from, to),
        decreases cs@.len() - i,
    {
        out.push(if cs[i] == from { to } else { cs[i] });
        assert(out@ =~= replace_char(cs@.take(i + 1), from, to));
        i = i + 1;
    }
    assert(cs@.take(i as int) =~= cs@);
    string_of(out.as_slice())
}

/// The file name of a category's store file: its `/` become `-`.
pub fn safe_catname(cat: &str) -> (r: String)
    ensures
        r@ == replace_char(cat@, '/', '-'),
{
    replace_chars(cat, '/', '-')
}

/// The category of a store file's name: its `-` become `/`.
pub fn catname_of_file(name: &str) -> (r: String)
    ensures
        r@ == replace_char(name@, '-', '/'),
{
    replace_chars(name, '-', '/')
}

/// The records that start a new day's file of a category: each live entry.
pub open spec fn snapshot_spec(entries: Seq<(Seq<char>, EntryV)>) -> Seq<char>
    decreases entries.len(),
{
    if entries.len() == 0 {
        Seq::empty()
    } else {
        let (sub, e) = entries.last();
        snapshot_spec(entries.drop_last()) + if e.expired { Seq::empty() } else { record_text(sub, e) }
    }
}

pub open spec fn entry_views(v: Seq<(String, Entry)>) -> Seq<(Seq<char>, EntryV)> {
    v.map_values(|p: (String, Entry)| (p.0@, p.1@))
}

/// The text that starts a new day's file of a category (see `snapshot_spec`).
pub fn snapshot_text(entries: &Vec<(String, Entry)>) -> (r: String)
    requires
        forall|i: int| 0 <= i < entries@.len() ==> time_ok((#[trigger] entries@[i]).1.time as int),
    ensures
        r@ == snapshot_spec(entry_views(entries@)),
{
    let mut out: Vec<char> = Vec::new();
    let mut i: usize = 0;
    while i < entries.len()
        invariant
            i <= entries@.len(),
            forall|k: int| 0 <= k < entries@.len() ==> time_ok((#[trigger] entries@[k]).1.time as int),
            out@ == snapshot_spec(entry_views(entries@).take(i as int)),
        decreases entries@.len() - i,
    {
        proof {
            let t = entry_views(entries@).take(i + 1);
            assert(t.drop_last() =~= entry_views(entries@).take(i as int));
            assert(t.last() == (entries@[i as int].0@, entries@[i as int].1@));
        }
        if !entries[i].1.expired {
            let line = store_line(entries[i].0.as_str(), &entries[i].1);
            push_str(&mut out, line.as_str());
        }
        i = i + 1;
    }
    assert(entry_views(entries@).take(i as int) =~= entry_views(entries@));
    string_of(out.as_slice())
}

proof fn lemma_split_none(x: Seq<char>, c: char)
    requires
        forall|j: int| 0 <= j < x.len() ==> x[j] != c,
    ensures
        split_on(x, c) == seq![x],
{
    lemma_lead_not(x, c, x.len() as int);
}

proof fn lemma_split_first(x: Seq<char>, c: char, y: Seq<char>)
    requires
        forall|j: int| 0 <= j < x.len() ==> x[j] != c,
    ensures
        split_on(x + seq![c] + y, c) == seq![x] + split_on(y, c),
{
    let s = x + seq![c] + y;
    assert forall|j: int| 0 <= j < x.len() implies #[trigger] s[j] != c by {
        assert(s[j] == x[j]);
    }
    lemma_lead_not(s, c, x.len() as int);
    assert(s.take(x.len() as int) =~= x);
    assert(s.skip(x.len() + 1 as int) =~= y);
}

/// A live entry without ttl, written to a fresh store file and read back,
/// is the same entry with the same time.
pub proof fn lemma_store_round_trip(sub: Seq<char>, e: EntryV)
    requires
        e.ttl == 0,
        !e.expired,
        0 <= e.time <= MAX_SECS * 1000000 + 999999,
        sub.len() > 0 && !is_ws(sub[0]),
        e.value.len() > 0 && !is_ws(e.value.last()),
        forall|j: int| 0 <= j < sub.len() ==> sub[j] != '\t' && sub[j] != '\n',
        forall|j: int| 0 <= j < e.value.len() ==> e.value[j] != '\t' && e.value[j] != '\n',
    ensures
        file_entry(file_records(header_text() + record_text(sub, e)), sub) == Some(e),
{
    let t = time_text(e.time);
    lemma_num_text(e.time as nat, Seq::empty());
    assert(nat_text(e.time as nat) + Seq::<char>::empty() =~= t);
    let tab = '\t';
    let line = sub + seq![tab] + t + seq![tab] + seq!['+'] + seq![tab] + e.value;
    assert(record_text(sub, e) =~= line + seq!['\n']);
    reveal_strlit("# NICOS cache store file v2\n");
    let h = header_text().drop_last();
    assert(header_text() =~= h + seq!['\n']);
    assert forall|j: int| 0 <= j < h.len() implies h[j] != '\n' && h[j] != tab by {}
    let text = header_text() + record_text(sub, e);
    assert(text =~= h + seq!['\n'] + (line + seq!['\n'] + Seq::<char>::empty()));
    // lines
    assert forall|j: int| 0 <= j < t.len() implies t[j] != '\n' && t[j] != tab by {
        assert(is_digit(t[j]) || t[j] == '.');
    }
    assert forall|j: int| 0 <= j < line.len() implies line[j] != '\n' by {
        if j < sub.len() {
            assert(line[j] == sub[j]);
        } else if sub.len() < j < sub.len() + 1 + t.len() {
            assert(line[j] == t[j - sub.len() - 1]);
        } else if j >= sub.len() + t.len() + 4 {
            assert(line[j] == e.value[j - sub.len() - t.len() - 4]);
        }
    }
    lemma_split_first(h, '\n', line + seq!['\n'] + Seq::<char>::empty());
    lemma_split_first(line, '\n', Seq::<char>::empty());
    lemma_split_none(Seq::<char>::empty(), '\n');
    let ls = seq![h, line, Seq::<char>::empty()];
    assert(split_on(text, '\n') =~= ls);
    // fields
    let th = trim(h);
    assert(th == h.subrange(crate::text::lead_ws(h) as int, h.len() as int).subrange(0, th.len() as int));
    assert forall|j: int| 0 <= j < th.len() implies th[j] != tab by {
        assert(th[j] == h[crate::text::lead_ws(h) + j]);
    }
    lemma_split_none(th, tab);
    lemma_trim_plain(line);
    assert(line[0] == sub[0]);
    assert(line.last() == e.value.last());
    assert(forall|j: int| 0 <= j < sub.len() ==> sub[j] != tab);
    assert(line =~= sub + seq![tab] + (t + seq![tab] + (seq!['+'] + seq![tab] + e.value)));
    lemma_split_first(sub, tab, t + seq![tab] + (seq!['+'] + seq![tab] + e.value));
    lemma_split_first(t, tab, seq!['+'] + seq![tab] + e.value);
    lemma_split_first(seq!['+'], tab, e.value);
    lemma_split_none(e.value, tab);
    let rec = seq![sub, t, seq!['+'], e.value];
    assert(split_on(trim(line), tab) =~= rec);
    lemma_trim_plain(Seq::<char>::empty());
    lemma_split_none(Seq::<char>::empty(), tab);
    let fields = ls.map_values(|l: Seq<char>| split_on(trim(l), tab));
    assert(fields =~= seq![seq![th], rec, seq![Seq::<char>::empty()]]);
    let pred = |r: Seq<Seq<char>>| r.len() == 4;
    Seq::<Seq<Seq<char>>>::empty().lemma_filter_push(seq![th], pred);
    seq![seq![th]].lemma_filter_push(rec, pred);
    seq![seq![th], rec].lemma_filter_push(seq![Seq::<char>::empty()], pred);
    reveal(Seq::filter);
    assert(Seq::<Seq<Seq<char>>>::empty().filter(pred) =~= Seq::<Seq<Seq<char>>>::empty());
    assert(seq![seq![th]] =~= Seq::<Seq<Seq<char>>>::empty().push(seq![th]));
    assert(seq![seq![th], rec] =~= seq![seq![th]].push(rec));
    assert(fields =~= seq![seq![th], rec].push(seq![Seq::<char>::empty()]));
    assert(file_records(text) =~= seq![rec]);
    assert(seq![rec].drop_last() =~= Seq::<Seq<Seq<char>>>::empty());
    assert(t =~= nat_text(e.time as nat));
    assert(field_time(t) == Some(e.time));
    assert(new_entry(e.time, 0, e.value) == e);
}

} // verus!
