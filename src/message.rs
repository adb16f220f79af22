//! Protocol messages: the wire grammar, its parser and its serializer.
//!
//! A line has the shape `[[time][(+|-)ttl]@] key op value`, where `op` is one
//! of `= ! ? * : | $ ~`. Whitespace around the parts is ignored. Time and
//! ttl are decimal seconds; a ttl may also carry an exponent (`1.5e3`).

use vstd::prelude::*;
use crate::stamp::{
    nat_text, lemma_num_text, ttl_len, ttl_fits, ttl_micros, after_num, exp_len, exp_sign_len, is_exp_mark,
    scan_ttl, MAX_TTL,
    MAX_SECS, time_ok, is_digit, lead_digits, num_len, num_fits, num_micros,
    time_text, push_time, scan_number,
};
use crate::text::{is_ws, lemma_lead_ws, lemma_trim_plain, lemma_trim_newline, lead_ws, trim, chars_of, string_of, str_range, trim_bounds, skip_ws, push_str};

verus! {

/// Any message (line) of the cache protocol.
#[derive(Debug)]
pub enum CacheMsg {
    /// quit, a.k.a. empty line
    Quit,
    /// value update without timestamp
    Tell { key: String, val: String, no_store: bool },
    /// value update with timestamp
    TellTS { key: String, val: String, time: i64, ttl: i64, no_store: bool },
    /// expired value update without timestamp
    TellOld { key: String, val: String },
    /// expired value update with timestamp
    TellOldTS { key: String, val: String, time: i64, ttl: i64 },
    /// query for a single key
    Ask { key: String, with_ts: bool },
    /// query for multiple keys with a wildcard
    AskWild { key: String, with_ts: bool },
    /// query for the history of a single key
    AskHist { key: String, from: i64, delta: i64 },
    /// subscription to a key substring
    Subscribe { key: String, with_ts: bool },
    /// cancellation of a subscription
    Unsub { key: String, with_ts: bool },
    /// lock request
    Lock { key: String, client: String, time: i64, ttl: i64 },
    /// unlock request
    Unlock { key: String, client: String },
    /// result of a lock or unlock request
    LockRes { key: String, client: String },
    /// set or delete of a prefix rewrite
    Rewrite { new_prefix: String, old_prefix: String },
}

/// The mathematical content of a `CacheMsg`.
pub ghost enum Msg {
    Quit,
    Tell { key: Seq<char>, val: Seq<char>, no_store: bool },
    TellTS { key: Seq<char>, val: Seq<char>, time: int, ttl: int, no_store: bool },
    TellOld { key: Seq<char>, val: Seq<char> },
    TellOldTS { key: Seq<char>, val: Seq<char>, time: int, ttl: int },
    Ask { key: Seq<char>, with_ts: bool },
    AskWild { key: Seq<char>, with_ts: bool },
    AskHist { key: Seq<char>, from: int, delta: int },
    Subscribe { key: Seq<char>, with_ts: bool },
    Unsub { key: Seq<char>, with_ts: bool },
    Lock { key: Seq<char>, client: Seq<char>, time: int, ttl: int },
    Unlock { key: Seq<char>, client: Seq<char> },
    LockRes { key: Seq<char>, client: Seq<char> },
    Rewrite { new_prefix: Seq<char>, old_prefix: Seq<char> },
}

impl View for CacheMsg {
    type V = Msg;

    open spec fn view(&self) -> Msg {
        match self {
            CacheMsg::Quit => Msg::Quit,
            CacheMsg::Tell { key, val, no_store } => Msg::Tell { key: key@, val: val@, no_store: *no_store },
            CacheMsg::TellTS { key, val, time, ttl, no_store } => Msg::TellTS {
                key: key@,
                val: val@,
                time: *time as int,
                ttl: *ttl as int,
                no_store: *no_store,
            },
            CacheMsg::TellOld { key, val } => Msg::TellOld { key: key@, val: val@ },
            CacheMsg::TellOldTS { key, val, time, ttl } => Msg::TellOldTS {
                key: key@,
                val: val@,
                time: *time as int,
                ttl: *ttl as int,
            },
            CacheMsg::Ask { key, with_ts } => Msg::Ask { key: key@, with_ts: *with_ts },
            CacheMsg::AskWild { key, with_ts } => Msg::AskWild { key: key@, with_ts: *with_ts },
            CacheMsg::AskHist { key, from, delta } => Msg::AskHist {
                key: key@,
                from: *from as int,
                delta: *delta as int,
            },
            CacheMsg::Subscribe { key, with_ts } => Msg::Subscribe { key: key@, with_ts: *with_ts },
            CacheMsg::Unsub { key, with_ts } => Msg::Unsub { key: key@, with_ts: *with_ts },
            CacheMsg::Lock { key, client, time, ttl } => Msg::Lock {
                key: key@,
                client: client@,
                time: *time as int,
                ttl: *ttl as int,
            },
            CacheMsg::Unlock { key, client } => Msg::Unlock { key: key@, client: client@ },
            CacheMsg::LockRes { key, client } => Msg::LockRes { key: key@, client: client@ },
            CacheMsg::Rewrite { new_prefix, old_prefix } => Msg::Rewrite {
                new_prefix: new_prefix@,
                old_prefix: old_prefix@,
            },
        }
    }
}

/// Every time and duration of the message is within the handled bounds.
pub open spec fn msg_times_ok(m: Msg) -> bool {
    match m {
        Msg::TellTS { time, ttl, .. } => time_ok(time) && time_ok(ttl),
        Msg::TellOldTS { time, ttl, .. } => time_ok(time) && time_ok(ttl),
        Msg::AskHist { from, delta, .. } => time_ok(from) && time_ok(delta),
        Msg::Lock { time, ttl, .. } => time_ok(time) && time_ok(ttl),
        _ => true,
    }
}

/// A clock reading that the parser accepts as "now".
pub open spec fn now_ok(now: int) -> bool {
    0 <= now <= MAX_SECS * 1000000
}

// ---------------------------------------------------------------- grammar

pub open spec fn is_op(c: char) -> bool {
    c == '=' || c == '!' || c == '?' || c == '*' || c == ':' || c == '|' || c == '$' || c == '~'
}

/// Number of leading characters that are not `c`.
pub open spec fn lead_not(s: Seq<char>, c: char) -> nat
    decreases s.len(),
{
    if s.len() > 0 && s[0] != c {
        1 + lead_not(s.drop_first(), c)
    } else {
        0
    }
}

/// Number of leading characters that are not operators.
pub open spec fn lead_non_op(s: Seq<char>) -> nat
    decreases s.len(),
{
    if s.len() > 0 && !is_op(s[0]) {
        1 + lead_non_op(s.drop_first())
    } else {
        0
    }
}

/// Positions in the part before `@`: where the time starts, its length,
/// whether the sign is `-`, where the ttl starts and its length, and whether
/// the part is a well-formed `ws [time] ws [sign] ws [ttl] ws`.
pub open spec fn stamp_scan(t: Seq<char>) -> (bool, int, nat, bool, int, nat) {
    let i0 = lead_ws(t) as int;
    let n1 = num_len(t.subrange(i0, t.len() as int));
    let i1 = i0 + n1;
    let i2 = i1 + lead_ws(t.subrange(i1, t.len() as int));
    let sg = i2 < t.len() && (t[i2] == '+' || t[i2] == '-');
    let i3 = if sg { i2 + 1 } else { i2 };
    let i4 = i3 + lead_ws(t.subrange(i3, t.len() as int));
    let n2 = ttl_len(t.subrange(i4, t.len() as int));
    let i5 = i4 + n2;
    let i6 = i5 + lead_ws(t.subrange(i5, t.len() as int));
    (i6 == t.len(), i0, n1, sg && t[i2] == '-', i4, n2)
}

/// A number of the stamp: absent (`None`), or present with its value where it
/// is within range.
pub open spec fn stamp_num(t: Seq<char>, at: int, n: nat) -> Option<Option<int>> {
    if n == 0 {
        None
    } else {
        let s = t.subrange(at, t.len() as int);
        Some(if num_fits(s) { Some(num_micros(s) as int) } else { None })
    }
}

/// The ttl of the stamp: absent (`None`), or present with its value where it
/// is within range.
pub open spec fn stamp_ttl(t: Seq<char>, at: int, n: nat) -> Option<Option<int>> {
    if n == 0 {
        None
    } else {
        let s = t.subrange(at, t.len() as int);
        Some(if ttl_fits(s) { Some(ttl_micros(s) as int) } else { None })
    }
}

/// The message that the line `s` denotes, given the clock reading `now`;
/// `None` for a line that is not a message.
pub open spec fn parse_spec(s: Seq<char>, now: int) -> Option<Msg> {
    let at = lead_not(s, '@') as int;
    let t = s.subrange(0, at);
    let scan = stamp_scan(t);
    let has_ts = at < s.len() && scan.0;
    let rest = if has_ts { s.subrange(at + 1, s.len() as int) } else { s };
    let q = lead_non_op(rest) as int;
    let tnum = stamp_num(t, scan.1, scan.2);
    let dnum = stamp_ttl(t, scan.4, scan.5);
    if q == rest.len() {
        if trim(s).len() == 0 { Some(Msg::Quit) } else { None }
    } else if has_ts && (tnum == Some(None::<int>) || dnum == Some(None::<int>)) {
        None
    } else {
        let t1: int = if has_ts && tnum is Some { tnum->0->0 } else { now };
        let d0: int = if has_ts && dnum is Some { dnum->0->0 } else { 0 };
        let dt: int = if has_ts && scan.3 { d0 - t1 } else { d0 };
        let key = trim(rest.subrange(0, q));
        let val = trim(rest.subrange(q + 1, rest.len() as int));
        Some(msg_of(rest[q], key, val, has_ts, t1, dt))
    }
}

/// The message of operator `op` with the trimmed key and value, whether the
/// line had a stamp, and the time and duration that it gives.
pub open spec fn msg_of(op: char, key: Seq<char>, val: Seq<char>, has_ts: bool, t1: int, dt: int) -> Msg {
    if op == '=' {
        let no_store = key.len() > 0 && key.last() == '#';
        let k = if no_store { key.drop_last() } else { key };
        if has_ts {
            Msg::TellTS { key: k, val, time: t1, ttl: dt, no_store }
        } else {
            Msg::Tell { key: k, val, no_store }
        }
    } else if op == '!' {
        if has_ts {
            Msg::TellOldTS { key, val, time: t1, ttl: dt }
        } else {
            Msg::TellOld { key, val }
        }
    } else if op == '?' {
        if has_ts && dt != 0 {
            Msg::AskHist { key, from: t1, delta: dt }
        } else {
            Msg::Ask { key, with_ts: has_ts }
        }
    } else if op == '*' {
        Msg::AskWild { key, with_ts: has_ts }
    } else if op == ':' {
        Msg::Subscribe { key, with_ts: has_ts }
    } else if op == '|' {
        Msg::Unsub { key, with_ts: has_ts }
    } else if op == '$' {
        if val.len() > 0 && val[0] == '+' {
            Msg::Lock { key, client: val.drop_first(), time: t1, ttl: dt }
        } else if val.len() > 0 && val[0] == '-' {
            Msg::Unlock { key, client: val.drop_first() }
        } else {
            Msg::LockRes { key, client: val }
        }
    } else {
        Msg::Rewrite { new_prefix: key, old_prefix: val }
    }
}

// ---------------------------------------------------------- serialization

pub open spec fn ts_mark(with_ts: bool) -> Seq<char> {
    if with_ts { seq!['@'] } else { Seq::empty() }
}

pub open spec fn store_mark(no_store: bool) -> Seq<char> {
    if no_store { seq!['#'] } else { Seq::empty() }
}

/// `time+ttl@`
pub open spec fn stamp_text(time: int, ttl: int) -> Seq<char> {
    time_text(time) + seq!['+'] + time_text(ttl) + seq!['@']
}

/// The line that a message is written as, with its final newline.
pub open spec fn msg_text(m: Msg) -> Seq<char> {
    match m {
        Msg::Quit => seq!['\n'],
        Msg::Tell { key, val, no_store } => key + store_mark(no_store) + seq!['='] + val + seq!['\n'],
        Msg::TellTS { key, val, time, ttl, no_store } => if ttl > 0 {
            stamp_text(time, ttl) + key + store_mark(no_store) + seq!['='] + val + seq!['\n']
        } else {
            time_text(time) + seq!['@'] + key + store_mark(no_store) + seq!['='] + val + seq!['\n']
        },
        Msg::TellOld { key, val } => key + seq!['!'] + val + seq!['\n'],
        Msg::TellOldTS { key, val, time, ttl } => stamp_text(time, ttl) + key + seq!['!'] + val
            + seq!['\n'],
        Msg::Ask { key, with_ts } => ts_mark(with_ts) + key + seq!['?', '\n'],
        Msg::AskWild { key, with_ts } => ts_mark(with_ts) + key + seq!['*', '\n'],
        Msg::AskHist { key, from, delta } => stamp_text(from, delta) + key + seq!['?', '\n'],
        Msg::Subscribe { key, with_ts } => ts_mark(with_ts) + key + seq![':', '\n'],
        Msg::Unsub { key, with_ts } => ts_mark(with_ts) + key + seq!['|', '\n'],
        Msg::Lock { key, client, time, ttl } => stamp_text(time, ttl) + key + seq!['$', '+'] + client
            + seq!['\n'],
        Msg::Unlock { key, client } => key + seq!['$', '-'] + client + seq!['\n'],
        Msg::LockRes { key, client } => key + seq!['$'] + client + seq!['\n'],
        Msg::Rewrite { new_prefix, old_prefix } => new_prefix + seq!['~'] + old_prefix + seq!['\n'],
    }
}

// ---------------------------------------------------------------- parsing

pub proof fn lemma_lead_not(s: Seq<char>, c: char, k: int)
    requires
        0 <= k <= s.len(),
        forall|j: int| 0 <= j < k ==> #[trigger] s[j] != c,
        k == s.len() || s[k] == c,
    ensures
        lead_not(s, c) == k,
    decreases k,
{
    if k > 0 {
        assert forall|j: int| 0 <= j < k - 1 implies #[trigger] s.drop_first()[j] != c by {
            assert(s.drop_first()[j] == s[j + 1]);
        }
        lemma_lead_not(s.drop_first(), c, k - 1);
    }
}

proof fn lemma_lead_non_op(s: Seq<char>, k: int)
    requires
        0 <= k <= s.len(),
        forall|j: int| 0 <= j < k ==> !is_op(#[trigger] s[j]),
        k == s.len() || is_op(s[k]),
    ensures
        lead_non_op(s) == k,
    decreases k,
{
    if k > 0 {
        assert forall|j: int| 0 <= j < k - 1 implies !is_op(#[trigger] s.drop_first()[j]) by {
            assert(s.drop_first()[j] == s[j + 1]);
        }
        lemma_lead_non_op(s.drop_first(), k - 1);
    }
}

fn find_char(cs: &Vec<char>, c: char) -> (j: usize)
    ensures
        j == lead_not(cs@, c),
        j <= cs@.len(),
{
    let mut j: usize = 0;
    while j < cs.len() && cs[j] != c
        invariant
            j <= cs@.len(),
            forall|k: int| 0 <= k < j ==> #[trigger] cs@[k] != c,
        decreases cs@.len() - j,
    {
        j = j + 1;
    }
    proof {
        lemma_lead_not(cs@, c, j as int);
    }
    j
}

fn is_op_exec(c: char) -> (r: bool)
    ensures
        r == is_op(c),
{
    c == '=' || c == '!' || c == '?' || c == '*' || c == ':' || c == '|' || c == '$' || c == '~'
}

fn find_op(cs: &Vec<char>, from: usize) -> (j: usize)
    requires
        from <= cs@.len(),
    ensures
        j == from + lead_non_op(cs@.subrange(from as int, cs@.len() as int)),
        from <= j <= cs@.len(),
{
    let mut j: usize = from;
    while j < cs.len() && !is_op_exec(cs[j])
        invariant
            from <= j <= cs@.len(),
            forall|k: int| from <= k < j ==> !is_op(#[trigger] cs@[k]),
        decreases cs@.len() - j,
    {
        j = j + 1;
    }
    proof {
        let s = cs@.subrange(from as int, cs@.len() as int);
        assert forall|k: int| 0 <= k < j - from implies !is_op(#[trigger] s[k]) by {
            assert(s[k] == cs@[from + k]);
        }
        lemma_lead_non_op(s, j - from);
    }
    j
}

/// An executable stamp number that stands for the specified one.
pub open spec fn same_num(e: Option<Option<i64>>, s: Option<Option<int>>) -> bool {
    match e {
        None => s is None,
        Some(None) => s == Some(None::<int>),
        Some(Some(v)) => s == Some(Some(v as int)),
    }
}

/// A number of the stamp, as `stamp_num` describes it.
fn stamp_number(cs: &Vec<char>, i: usize, end: usize) -> (r: (usize, Option<Option<i64>>))
    requires
        i <= end <= cs@.len(),
    ensures
        r.0 == i + num_len(cs@.subrange(i as int, end as int)),
        same_num(r.1, stamp_num(cs@.subrange(0, end as int), i as int, num_len(cs@.subrange(i as int, end as int)))),
        r.1 matches Some(Some(v)) ==> 0 <= v <= MAX_SECS * 1000000 + 999999,
        i <= r.0 <= end,
{
    let (j, v) = scan_number(cs, i, end);
    assert(cs@.subrange(0, end as int).subrange(i as int, cs@.subrange(0, end as int).len() as int)
        =~= cs@.subrange(i as int, end as int));
    if j == i {
        (j, None)
    } else {
        (j, Some(v))
    }
}

/// The ttl of the stamp, as `stamp_ttl` describes it.
fn stamp_ttl_number(cs: &Vec<char>, i: usize, end: usize) -> (r: (usize, Option<Option<i64>>))
    requires
        i <= end <= cs@.len(),
    ensures
        r.0 == i + ttl_len(cs@.subrange(i as int, end as int)),
        same_num(r.1, stamp_ttl(cs@.subrange(0, end as int), i as int, ttl_len(cs@.subrange(i as int, end as int)))),
        r.1 matches Some(Some(v)) ==> 0 <= v <= MAX_TTL,
        i <= r.0 <= end,
{
    let (j, v) = scan_ttl(cs, i, end);
    assert(cs@.subrange(0, end as int).subrange(i as int, cs@.subrange(0, end as int).len() as int)
        =~= cs@.subrange(i as int, end as int));
    if j == i {
        (j, None)
    } else {
        (j, Some(v))
    }
}

/// Scan of the part before `@`, as `stamp_scan` and `stamp_num` describe it.
#[verifier::rlimit(60)]
fn scan_stamp(cs: &Vec<char>, at: usize) -> (r: (bool, bool, Option<Option<i64>>, Option<Option<i64>>))
    requires
        at <= cs@.len(),
    ensures
        ({
            let t = cs@.subrange(0, at as int);
            let sc = stamp_scan(t);
            &&& r.0 == sc.0
            &&& r.1 == sc.3
            &&& same_num(r.2, stamp_num(t, sc.1, sc.2))
            &&& same_num(r.3, stamp_ttl(t, sc.4, sc.5))
        }),
        r.2 matches Some(Some(v)) ==> 0 <= v <= MAX_SECS * 1000000 + 999999,
        r.3 matches Some(Some(v)) ==> 0 <= v <= MAX_TTL,
{
    let ghost t = cs@.subrange(0, at as int);
    let i0 = skip_ws(cs, 0, at);
    assert(cs@.subrange(0, at as int) =~= t.subrange(0, t.len() as int));
    let (i1, tnum) = stamp_number(cs, i0, at);
    assert(cs@.subrange(i0 as int, at as int) =~= t.subrange(i0 as int, t.len() as int));
    let i2 = skip_ws(cs, i1, at);
    assert(cs@.subrange(i1 as int, at as int) =~= t.subrange(i1 as int, t.len() as int));
    let sg = i2 < at && (cs[i2] == '+' || cs[i2] == '-');
    let minus = sg && cs[i2] == '-';
    let i3 = if sg { i2 + 1 } else { i2 };
    let i4 = skip_ws(cs, i3, at);
    assert(cs@.subrange(i3 as int, at as int) =~= t.subrange(i3 as int, t.len() as int));
    let (i5, dnum) = stamp_ttl_number(cs, i4, at);
    assert(cs@.subrange(i4 as int, at as int) =~= t.subrange(i4 as int, t.len() as int));
    let i6 = skip_ws(cs, i5, at);
    assert(cs@.subrange(i5 as int, at as int) =~= t.subrange(i5 as int, t.len() as int));
    (i6 == at, minus, tnum, dnum)
}

/// The message of operator `op` with key `cs[klo..khi]` and value `cs[vlo..vhi]`.
fn build_msg(cs: &Vec<char>, op: char, klo: usize, khi: usize, vlo: usize, vhi: usize,
    has_ts: bool, t1: i64, dt: i64) -> (m: CacheMsg)
    requires
        klo <= khi <= cs@.len(),
        vlo <= vhi <= cs@.len(),
        time_ok(t1 as int),
        time_ok(dt as int),
    ensures
        m@ == msg_of(op, cs@.subrange(klo as int, khi as int), cs@.subrange(vlo as int, vhi as int),
            has_ts, t1 as int, dt as int),
        msg_times_ok(m@),
{
    let ghost key = cs@.subrange(klo as int, khi as int);
    let ghost val = cs@.subrange(vlo as int, vhi as int);
    if op == '=' {
        let no_store = khi > klo && cs[khi - 1] == '#';
        let key_s = if no_store {
            assert(key.drop_last() =~= cs@.subrange(klo as int, khi - 1));
            str_range(cs, klo, khi - 1)
        } else {
            str_range(cs, klo, khi)
        };
        let val_s = str_range(cs, vlo, vhi);
        if has_ts {
            CacheMsg::TellTS { key: key_s, val: val_s, time: t1, ttl: dt, no_store }
        } else {
            CacheMsg::Tell { key: key_s, val: val_s, no_store }
        }
    } else if op == '!' {
        let key_s = str_range(cs, klo, khi);
        let val_s = str_range(cs, vlo, vhi);
        if has_ts {
            CacheMsg::TellOldTS { key: key_s, val: val_s, time: t1, ttl: dt }
        } else {
            CacheMsg::TellOld { key: key_s, val: val_s }
        }
    } else if op == '?' {
        let key_s = str_range(cs, klo, khi);
        if has_ts && dt != 0 {
            CacheMsg::AskHist { key: key_s, from: t1, delta: dt }
        } else {
            CacheMsg::Ask { key: key_s, with_ts: has_ts }
        }
    } else if op == '*' {
        CacheMsg::AskWild { key: str_range(cs, klo, khi), with_ts: has_ts }
    } else if op == ':' {
        CacheMsg::Subscribe { key: str_range(cs, klo, khi), with_ts: has_ts }
    } else if op == '|' {
        CacheMsg::Unsub { key: str_range(cs, klo, khi), with_ts: has_ts }
    } else if op == '$' {
        let key_s = str_range(cs, klo, khi);
        if vhi > vlo && cs[vlo] == '+' {
            assert(val.drop_first() =~= cs@.subrange(vlo + 1, vhi as int));
            CacheMsg::Lock { key: key_s, client: str_range(cs, vlo + 1, vhi), time: t1, ttl: dt }
        } else if vhi > vlo && cs[vlo] == '-' {
            assert(val.drop_first() =~= cs@.subrange(vlo + 1, vhi as int));
            CacheMsg::Unlock { key: key_s, client: str_range(cs, vlo + 1, vhi) }
        } else {
            CacheMsg::LockRes { key: key_s, client: str_range(cs, vlo, vhi) }
        }
    } else {
        CacheMsg::Rewrite { new_prefix: str_range(cs, klo, khi), old_prefix: str_range(cs, vlo, vhi) }
    }
}

impl CacheMsg {
    /// Parses one line of the protocol; `now` stands for a time that the line
    /// leaves out. `None` where the line is not a message.
    #[verifier::rlimit(40)]
    pub fn parse(line: &str, now: i64) -> (r: Option<CacheMsg>)
        requires
            now_ok(now as int),
        ensures
            match r {
                Some(m) => parse_spec(line@, now as int) == Some(m@) && msg_times_ok(m@),
                None => parse_spec(line@, now as int) is None,
            },
    {
        let cs = chars_of(line);
        let ghost s = cs@;
        let n = cs.len();
        let at = find_char(&cs, '@');
        let (ok, minus, tnum, dnum) = scan_stamp(&cs, at);
        let has_ts = at < n && ok;
        let start: usize = if has_ts { at + 1 } else { 0 };
        let ghost rest = if has_ts { s.subrange(at + 1, s.len() as int) } else { s };
        assert(rest =~= cs@.subrange(start as int, n as int));
        let q = find_op(&cs, start);
        if q == n {
            let (lo, hi) = trim_bounds(&cs, 0, n);
            assert(cs@.subrange(0, n as int) =~= s);
            if lo == hi {
                return Some(CacheMsg::Quit);
            } else {
                return None;
            }
        }
        let t_over = match tnum { Some(None) => true, _ => false };
        let d_over = match dnum { Some(None) => true, _ => false };
        if has_ts && (t_over || d_over) {
            return None;
        }
        let t1: i64 = if has_ts {
            match tnum { Some(Some(v)) => v, _ => now }
        } else {
            now
        };
        let d0: i64 = if has_ts {
            match dnum { Some(Some(v)) => v, _ => 0 }
        } else {
            0
        };
        let dt: i64 = if has_ts && minus { d0 - t1 } else { d0 };
        let (klo, khi) = trim_bounds(&cs, start, q);
        let (vlo, vhi) = trim_bounds(&cs, q + 1, n);
        assert(rest.subrange(0, q - start) =~= cs@.subrange(start as int, q as int));
        assert(rest.subrange(q - start + 1, rest.len() as int) =~= cs@.subrange(q + 1, n as int));
        let op = cs[q];
        assert(op == rest[q - start]);
        proof {
            let t = s.subrange(0, at as int);
            let sc = stamp_scan(t);
            let tn = stamp_num(t, sc.1, sc.2);
            let dn = stamp_ttl(t, sc.4, sc.5);
            assert(has_ts == (at < s.len() && sc.0));
            let st1: int = if has_ts && tn is Some { tn->0->0 } else { now as int };
            let sd0: int = if has_ts && dn is Some { dn->0->0 } else { 0 };
            assert(st1 == t1 as int);
            assert(sd0 == d0 as int);
            assert(trim(rest.subrange(0, q - start)) == cs@.subrange(klo as int, khi as int));
            assert(trim(rest.subrange(q - start + 1, rest.len() as int)) == cs@.subrange(vlo as int, vhi as int));
            assert(lead_non_op(rest) == q - start);
        }
        Some(build_msg(&cs, op, klo, khi, vlo, vhi, has_ts, t1, dt))
    }
}

/// Appends `time+ttl@`.
fn push_stamp(out: &mut Vec<char>, time: i64, ttl: i64)
    requires
        time_ok(time as int),
        time_ok(ttl as int),
    ensures
        final(out)@ == old(out)@ + stamp_text(time as int, ttl as int),
{
    push_time(out, time);
    out.push('+');
    push_time(out, ttl);
    out.push('@');
    assert(final(out)@ =~= old(out)@ + stamp_text(time as int, ttl as int));
}

impl CacheMsg {
    /// The line that this message is written as, with its final newline.
    pub fn to_string(&self) -> (r: String)
        requires
            msg_times_ok(self@),
        ensures
            r@ == msg_text(self@),
    {
        let mut out: Vec<char> = Vec::new();
        match self {
            CacheMsg::Quit => {
                out.push('\n');
            },
            CacheMsg::Tell { key, val, no_store } => {
                push_str(&mut out, key.as_str());
                if *no_store {
                    out.push('#');
                }
                out.push('=');
                push_str(&mut out, val.as_str());
                out.push('\n');
            },
            CacheMsg::TellTS { key, val, time, ttl, no_store } => {
                if *ttl > 0 {
                    push_stamp(&mut out, *time, *ttl);
                } else {
                    push_time(&mut out, *time);
                    out.push('@');
                }
                push_str(&mut out, key.as_str());
                if *no_store {
                    out.push('#');
                }
                out.push('=');
                push_str(&mut out, val.as_str());
                out.push('\n');
            },
            CacheMsg::TellOld { key, val } => {
                push_str(&mut out, key.as_str());
                out.push('!');
                push_str(&mut out, val.as_str());
                out.push('\n');
            },
            CacheMsg::TellOldTS { key, val, time, ttl } => {
                push_stamp(&mut out, *time, *ttl);
                push_str(&mut out, key.as_str());
                out.push('!');
                push_str(&mut out, val.as_str());
                out.push('\n');
            },
            CacheMsg::Ask { key, with_ts } => {
                if *with_ts {
                    out.push('@');
                }
                push_str(&mut out, key.as_str());
                out.push('?');
                out.push('\n');
            },
            CacheMsg::AskWild { key, with_ts } => {
                if *with_ts {
                    out.push('@');
                }
                push_str(&mut out, key.as_str());
                out.push('*');
                out.push('\n');
            },
            CacheMsg::AskHist { key, from, delta } => {
                push_stamp(&mut out, *from, *delta);
                push_str(&mut out, key.as_str());
                out.push('?');
                out.push('\n');
            },
            CacheMsg::Subscribe { key, with_ts } => {
                if *with_ts {
                    out.push('@');
                }
                push_str(&mut out, key.as_str());
                out.push(':');
                out.push('\n');
            },
            CacheMsg::Unsub { key, with_ts } => {
                if *with_ts {
                    out.push('@');
                }
                push_str(&mut out, key.as_str());
                out.push('|');
                out.push('\n');
            },
            CacheMsg::Lock { key, client, time, ttl } => {
                push_stamp(&mut out, *time, *ttl);
                push_str(&mut out, key.as_str());
                out.push('$');
                out.push('+');
                push_str(&mut out, client.as_str());
                out.push('\n');
            },
            CacheMsg::Unlock { key, client } => {
                push_str(&mut out, key.as_str());
                out.push('$');
                out.push('-');
                push_str(&mut out, client.as_str());
                out.push('\n');
            },
            CacheMsg::LockRes { key, client } => {
                push_str(&mut out, key.as_str());
                out.push('$');
                push_str(&mut out, client.as_str());
                out.push('\n');
            },
            CacheMsg::Rewrite { new_prefix, old_prefix } => {
                push_str(&mut out, new_prefix.as_str());
                out.push('~');
                push_str(&mut out, old_prefix.as_str());
                out.push('\n');
            },
        }
        assert(out@ =~= msg_text(self@));
        string_of(out.as_slice())
    }
}

// ------------------------------------------------------------ round trip

/// A key as the server writes it: no operator, no `@`, and no whitespace at
/// either end.
pub open spec fn plain_key(k: Seq<char>) -> bool {
    &&& forall|j: int| 0 <= j < k.len() ==> !is_op(#[trigger] k[j]) && k[j] != '@'
    &&& (k.len() == 0 || (!is_ws(k[0]) && !is_ws(k.last())))
}

/// A value as the server writes it: no whitespace at either end.
pub open spec fn plain_value(v: Seq<char>) -> bool {
    v.len() == 0 || (!is_ws(v[0]) && !is_ws(v.last()))
}

/// A time that the server writes and the parser reads back.
pub open spec fn stamp_ok(t: int) -> bool {
    0 <= t <= MAX_SECS * 1000000 + 999999
}

/// The messages that the server emits, with the fields that it emits them
/// with.
pub open spec fn server_msg(m: Msg) -> bool {
    match m {
        Msg::Tell { key, val, no_store } => plain_key(key) && plain_value(val)
            && (!no_store ==> key.len() == 0 || key.last() != '#'),
        Msg::TellTS { key, val, time, ttl, no_store } => plain_key(key) && plain_value(val)
            && (!no_store ==> key.len() == 0 || key.last() != '#') && stamp_ok(time) && stamp_ok(ttl),
        Msg::TellOld { key, val } => plain_key(key) && plain_value(val),
        Msg::TellOldTS { key, val, time, ttl } => plain_key(key) && plain_value(val) && stamp_ok(time)
            && stamp_ok(ttl),
        Msg::LockRes { key, client } => plain_key(key) && plain_value(client)
            && (client.len() == 0 || (client[0] != '+' && client[0] != '-')),
        _ => false,
    }
}

pub open spec fn stamp_char(c: char) -> bool {
    is_digit(c) || is_ws(c) || c == '.' || c == '+' || c == '-' || is_exp_mark(c)
}

proof fn lemma_lead_ws_chars(s: Seq<char>)
    ensures
        lead_ws(s) <= s.len(),
        forall|j: int| 0 <= j < lead_ws(s) ==> is_ws(#[trigger] s[j]),
    decreases s.len(),
{
    if s.len() > 0 && is_ws(s[0]) {
        lemma_lead_ws_chars(s.drop_first());
        assert forall|j: int| 0 <= j < lead_ws(s) implies is_ws(#[trigger] s[j]) by {
            if j > 0 {
                assert(s.drop_first()[j - 1] == s[j]);
            }
        }
    }
}

proof fn lemma_lead_digits_chars(s: Seq<char>)
    ensures
        lead_digits(s) <= s.len(),
        forall|j: int| 0 <= j < lead_digits(s) ==> is_digit(#[trigger] s[j]),
    decreases s.len(),
{
    if s.len() > 0 && is_digit(s[0]) {
        lemma_lead_digits_chars(s.drop_first());
        assert forall|j: int| 0 <= j < lead_digits(s) implies is_digit(#[trigger] s[j]) by {
            if j > 0 {
                assert(s.drop_first()[j - 1] == s[j]);
            }
        }
    }
}

proof fn lemma_num_chars(s: Seq<char>)
    ensures
        num_len(s) <= s.len(),
        forall|j: int| 0 <= j < num_len(s) ==> is_digit(#[trigger] s[j]) || s[j] == '.',
{
    lemma_lead_digits_chars(s);
    let d = lead_digits(s);
    if d > 0 && d < s.len() && s[d as int] == '.' {
        let u = s.subrange(d + 1 as int, s.len() as int);
        lemma_lead_digits_chars(u);
        assert forall|j: int| 0 <= j < num_len(s) implies is_digit(#[trigger] s[j]) || s[j] == '.' by {
            if j > d {
                assert(u[j - d - 1] == s[j]);
            }
        }
    }
}

proof fn lemma_ttl_chars(s: Seq<char>)
    ensures
        ttl_len(s) <= s.len(),
        forall|j: int| 0 <= j < ttl_len(s) ==> stamp_char(#[trigger] s[j]),
{
    lemma_num_chars(s);
    if num_len(s) > 0 {
        let a = after_num(s);
        let sg = exp_sign_len(a);
        if a.len() > 0 && is_exp_mark(a[0]) {
            let u = a.subrange(1 + sg as int, a.len() as int);
            lemma_lead_digits_chars(u);
            assert forall|j: int| 0 <= j < ttl_len(s) implies stamp_char(#[trigger] s[j]) by {
                let nl = num_len(s) as int;
                if j >= nl {
                    assert(s[j] == a[j - nl]);
                    if j - nl > sg {
                        assert(a[j - nl] == u[j - nl - 1 - sg]);
                    }
                }
            }
        }
    }
}

/// A well-formed stamp holds only digits, whitespace, points and signs.
proof fn lemma_stamp_chars(t: Seq<char>)
    requires
        stamp_scan(t).0,
    ensures
        forall|j: int| 0 <= j < t.len() ==> stamp_char(#[trigger] t[j]),
{
    let i0 = lead_ws(t) as int;
    lemma_lead_ws_chars(t);
    let s1 = t.subrange(i0, t.len() as int);
    lemma_num_chars(s1);
    let i1 = i0 + num_len(s1);
    let s2 = t.subrange(i1, t.len() as int);
    lemma_lead_ws_chars(s2);
    let i2 = i1 + lead_ws(s2);
    let sg = i2 < t.len() && (t[i2] == '+' || t[i2] == '-');
    let i3 = if sg { i2 + 1 } else { i2 };
    let s3 = t.subrange(i3, t.len() as int);
    lemma_lead_ws_chars(s3);
    let i4 = i3 + lead_ws(s3);
    let s4 = t.subrange(i4, t.len() as int);
    lemma_ttl_chars(s4);
    let i5 = i4 + ttl_len(s4);
    let s5 = t.subrange(i5, t.len() as int);
    lemma_lead_ws_chars(s5);
    assert forall|j: int| 0 <= j < t.len() implies stamp_char(#[trigger] t[j]) by {
        if j < i0 {
        } else if j < i1 {
            assert(s1[j - i0] == t[j]);
        } else if j < i2 {
            assert(s2[j - i1] == t[j]);
        } else if j < i3 {
        } else if j < i4 {
            assert(s3[j - i3] == t[j]);
        } else if j < i5 {
            assert(s4[j - i4] == t[j]);
        } else {
            assert(s5[j - i5] == t[j]);
        }
    }
}

/// The part after the stamp: key (with its store mark), operator, value.
proof fn lemma_body(key: Seq<char>, op: char, val: Seq<char>)
    requires
        forall|j: int| 0 <= j < key.len() ==> !is_op(#[trigger] key[j]),
        key.len() == 0 || (!is_ws(key[0]) && !is_ws(key.last())),
        plain_value(val),
        is_op(op),
    ensures
        ({
            let rest = key + seq![op] + val + seq!['\n'];
            &&& lead_non_op(rest) == key.len()
            &&& rest[key.len() as int] == op
            &&& trim(rest.subrange(0, key.len() as int)) == key
            &&& trim(rest.subrange(key.len() + 1 as int, rest.len() as int)) == val
        }),
{
    let rest = key + seq![op] + val + seq!['\n'];
    assert forall|j: int| 0 <= j < key.len() implies !is_op(#[trigger] rest[j]) by {
        assert(rest[j] == key[j]);
    }
    lemma_lead_non_op(rest, key.len() as int);
    assert(rest.subrange(0, key.len() as int) =~= key);
    lemma_trim_plain(key);
    assert(rest.subrange(key.len() + 1 as int, rest.len() as int) =~= val + seq!['\n']);
    lemma_trim_newline(val);
}

/// A line without stamp whose first `@`, if any, follows an operator.
proof fn lemma_no_stamp(s: Seq<char>, k: int)
    requires
        0 <= k < s.len(),
        is_op(s[k]),
        forall|j: int| 0 <= j <= k ==> s[j] != '@',
    ensures
        !(lead_not(s, '@') < s.len() && stamp_scan(s.subrange(0, lead_not(s, '@') as int)).0),
{
    let at = lead_not(s, '@');
    crate::store_flat::lemma_lead_not_bounds(s, '@');
    if at < s.len() && stamp_scan(s.subrange(0, at as int)).0 {
        let t = s.subrange(0, at as int);
        assert(at > k) by {
            if at <= k {
                assert(s[at as int] == '@');
            }
        }
        lemma_stamp_chars(t);
        assert(t[k] == s[k]);
        assert(stamp_char(t[k]));
    }
}

/// The stamp `time+ttl` of a server line.
#[verifier::rlimit(60)]
proof fn lemma_stamp2(time: int, ttl: int)
    requires
        stamp_ok(time),
        stamp_ok(ttl),
    ensures
        ({
            let t = time_text(time) + seq!['+'] + time_text(ttl);
            let sc = stamp_scan(t);
            &&& sc.0
            &&& !sc.3
            &&& stamp_num(t, sc.1, sc.2) == Some(Some(time))
            &&& stamp_ttl(t, sc.4, sc.5) == Some(Some(ttl))
            &&& forall|j: int| 0 <= j < t.len() ==> #[trigger] t[j] != '@' && !is_op(t[j])
        }),
{
    let t1 = time_text(time);
    let t2 = time_text(ttl);
    let t = t1 + seq!['+'] + t2;
    lemma_num_text(time as nat, seq!['+'] + t2);
    lemma_num_text(ttl as nat, Seq::empty());
    assert(t1 == nat_text(time as nat));
    assert(t2 == nat_text(ttl as nat));
    assert(nat_text(ttl as nat) + Seq::<char>::empty() =~= t2);
    assert(t =~= t1 + (seq!['+'] + t2));
    lemma_lead_ws(t, 0);
    assert(t.subrange(0, t.len() as int) =~= t);
    let i1 = t1.len() as int;
    let s2 = t.subrange(i1, t.len() as int);
    assert(s2 =~= seq!['+'] + t2);
    lemma_lead_ws(s2, 0);
    let s3 = t.subrange(i1 + 1, t.len() as int);
    assert(s3 =~= t2);
    lemma_lead_ws(s3, 0);
    let s5 = t.subrange(t.len() as int, t.len() as int);
    assert(s5 =~= Seq::<char>::empty());
    lemma_lead_ws(s5, 0);
    assert forall|j: int| 0 <= j < t.len() implies #[trigger] t[j] != '@' && !is_op(t[j]) by {
        if j < i1 {
            assert(t[j] == t1[j]);
        } else if j > i1 {
            assert(t[j] == t2[j - i1 - 1]);
        }
    }
}

/// The stamp `time` of a server line.
proof fn lemma_stamp1(time: int)
    requires
        stamp_ok(time),
    ensures
        ({
            let t = time_text(time);
            let sc = stamp_scan(t);
            &&& sc.0
            &&& !sc.3
            &&& stamp_num(t, sc.1, sc.2) == Some(Some(time))
            &&& stamp_ttl(t, sc.4, sc.5) == None::<Option<int>>
            &&& forall|j: int| 0 <= j < t.len() ==> #[trigger] t[j] != '@' && !is_op(t[j])
        }),
{
    let t = time_text(time);
    lemma_num_text(time as nat, Seq::empty());
    assert(t == nat_text(time as nat));
    assert(t + Seq::<char>::empty() =~= t);
    lemma_lead_ws(t, 0);
    assert(t.subrange(0, t.len() as int) =~= t);
    let s2 = t.subrange(t.len() as int, t.len() as int);
    assert(s2 =~= Seq::<char>::empty());
    lemma_lead_ws(s2, 0);
    assert(lead_digits(s2) == 0);
}

/// The line of a message without stamp reads back as its operator, key and
/// value.
#[verifier::rlimit(60)]
proof fn lemma_plain_line(k2: Seq<char>, op: char, val: Seq<char>, now: int)
    requires
        forall|j: int| 0 <= j < k2.len() ==> !is_op(#[trigger] k2[j]) && k2[j] != '@',
        k2.len() == 0 || (!is_ws(k2[0]) && !is_ws(k2.last())),
        plain_value(val),
        op == '=' || op == '!' || op == '$',
    ensures
        parse_spec(k2 + seq![op] + val + seq!['\n'], now) == Some(msg_of(op, k2, val, false, now, 0)),
{
    let s = k2 + seq![op] + val + seq!['\n'];
    lemma_body(k2, op, val);
    assert forall|j: int| 0 <= j <= k2.len() implies s[j] != '@' by {
        if j < k2.len() { assert(s[j] == k2[j]); }
    }
    lemma_no_stamp(s, k2.len() as int);
}

/// The line of a message with stamp `t` reads back as its operator, key and
/// value with the stamp's time and ttl.
#[verifier::rlimit(60)]
proof fn lemma_stamped_line(t: Seq<char>, k2: Seq<char>, op: char, val: Seq<char>, now: int, time: int, dt: int)
    requires
        forall|j: int| 0 <= j < k2.len() ==> !is_op(#[trigger] k2[j]),
        k2.len() == 0 || (!is_ws(k2[0]) && !is_ws(k2.last())),
        plain_value(val),
        op == '=' || op == '!',
        forall|j: int| 0 <= j < t.len() ==> #[trigger] t[j] != '@',
        stamp_scan(t).0,
        !stamp_scan(t).3,
        stamp_num(t, stamp_scan(t).1, stamp_scan(t).2) == Some(Some(time)),
        stamp_ttl(t, stamp_scan(t).4, stamp_scan(t).5) == None::<Option<int>> ==> dt == 0,
        stamp_ttl(t, stamp_scan(t).4, stamp_scan(t).5) != None::<Option<int>>
            ==> stamp_ttl(t, stamp_scan(t).4, stamp_scan(t).5) == Some(Some(dt)),
    ensures
        parse_spec(t + seq!['@'] + (k2 + seq![op] + val + seq!['\n']), now) == Some(msg_of(op, k2, val, true, time, dt)),
{
    let rest = k2 + seq![op] + val + seq!['\n'];
    let s = t + seq!['@'] + rest;
    lemma_body(k2, op, val);
    assert forall|j: int| 0 <= j < t.len() implies #[trigger] s[j] != '@' by {
        assert(s[j] == t[j]);
    }
    lemma_lead_not(s, '@', t.len() as int);
    assert(s.subrange(0, t.len() as int) =~= t);
    assert(s.subrange(t.len() + 1 as int, s.len() as int) =~= rest);
}

/// The key of a value update with its store mark, as the parser sees it.
proof fn lemma_marked_key(key: Seq<char>, no_store: bool)
    requires
        plain_key(key),
        !no_store ==> key.len() == 0 || key.last() != '#',
    ensures
        ({
            let k2 = key + store_mark(no_store);
            &&& forall|j: int| 0 <= j < k2.len() ==> !is_op(#[trigger] k2[j]) && k2[j] != '@'
            &&& k2.len() == 0 || (!is_ws(k2[0]) && !is_ws(k2.last()))
            &&& (k2.len() > 0 && k2.last() == '#') == no_store
            &&& (if no_store { k2.drop_last() } else { k2 }) == key
        }),
{
    let k2 = key + store_mark(no_store);
    assert forall|j: int| 0 <= j < k2.len() implies !is_op(#[trigger] k2[j]) && k2[j] != '@' by {
        if j < key.len() { assert(k2[j] == key[j]); }
    }
    if no_store {
        assert(k2.drop_last() =~= key);
    } else {
        assert(k2 =~= key);
    }
}

#[verifier::rlimit(80)]
proof fn lemma_rt_tell_ts(key: Seq<char>, val: Seq<char>, time: int, ttl: int, no_store: bool, now: int)
    requires
        server_msg(Msg::TellTS { key, val, time, ttl, no_store }),
    ensures
        parse_spec(msg_text(Msg::TellTS { key, val, time, ttl, no_store }), now) == Some(Msg::TellTS { key, val, time, ttl, no_store }),
{
    let m = Msg::TellTS { key, val, time, ttl, no_store };
    let k2 = key + store_mark(no_store);
    lemma_marked_key(key, no_store);
    assert(msg_of('=', k2, val, true, time, ttl) == m);
    if ttl > 0 {
        let t = time_text(time) + seq!['+'] + time_text(ttl);
        assert(msg_text(m) =~= t + seq!['@'] + (k2 + seq!['='] + val + seq!['\n']));
        lemma_stamp2(time, ttl);
        lemma_stamped_line(t, k2, '=', val, now, time, ttl);
    } else {
        let t = time_text(time);
        assert(msg_text(m) =~= t + seq!['@'] + (k2 + seq!['='] + val + seq!['\n']));
        lemma_stamp1(time);
        lemma_stamped_line(t, k2, '=', val, now, time, ttl);
    }
}

proof fn lemma_rt_tell_old_ts(key: Seq<char>, val: Seq<char>, time: int, ttl: int, now: int)
    requires
        server_msg(Msg::TellOldTS { key, val, time, ttl }),
    ensures
        parse_spec(msg_text(Msg::TellOldTS { key, val, time, ttl }), now) == Some(Msg::TellOldTS { key, val, time, ttl }),
{
    let m = Msg::TellOldTS { key, val, time, ttl };
    let t = time_text(time) + seq!['+'] + time_text(ttl);
    assert(msg_text(m) =~= t + seq!['@'] + (key + seq!['!'] + val + seq!['\n']));
    assert(msg_of('!', key, val, true, time, ttl) == m);
    lemma_stamp2(time, ttl);
    lemma_stamped_line(t, key, '!', val, now, time, ttl);
}

proof fn lemma_rt_tell(key: Seq<char>, val: Seq<char>, no_store: bool, now: int)
    requires
        server_msg(Msg::Tell { key, val, no_store }),
    ensures
        parse_spec(msg_text(Msg::Tell { key, val, no_store }), now) == Some(Msg::Tell { key, val, no_store }),
{
    let m = Msg::Tell { key, val, no_store };
    let k2 = key + store_mark(no_store);
    lemma_marked_key(key, no_store);
    assert(msg_of('=', k2, val, false, now, 0) == m);
    assert(msg_text(m) =~= k2 + seq!['='] + val + seq!['\n']);
    lemma_plain_line(k2, '=', val, now);
}

/// What the server writes reads back as the same message, whatever the
/// clock says.
pub proof fn lemma_round_trip(m: Msg, now: int)
    requires
        server_msg(m),
    ensures
        parse_spec(msg_text(m), now) == Some(m),
{
    match m {
        Msg::Tell { key, val, no_store } => lemma_rt_tell(key, val, no_store, now),
        Msg::TellOld { key, val } => {
            lemma_plain_line(key, '!', val, now);
            assert(msg_text(m) =~= key + seq!['!'] + val + seq!['\n']);
        },
        Msg::LockRes { key, client } => {
            lemma_plain_line(key, '$', client, now);
            assert(msg_text(m) =~= key + seq!['$'] + client + seq!['\n']);
        },
        Msg::TellTS { key, val, time, ttl, no_store } => lemma_rt_tell_ts(key, val, time, ttl, no_store, now),
        Msg::TellOldTS { key, val, time, ttl } => lemma_rt_tell_old_ts(key, val, time, ttl, now),
        _ => {},
    }
}

} // verus!
