//! The handling of one connection: cutting the incoming bytes into lines,
//! and carrying out each message against the database.

use vstd::prelude::*;
use crate::database::{DB, Change, tell_post, lock_post, rewrite_post, ask_text, batches_of, wc_lines, hist_range};
use crate::message::msg_times_ok;
use crate::message::{CacheMsg, Msg, parse_spec, now_ok};
use crate::stamp::time_ok;
use crate::updater::UpdaterMsg;

verus! {

/// Relies on `memchr::memchr`: the index of the first occurrence of `needle`
/// in `hay`, or `None` where it does not occur.
#[verifier::external_body]
fn find_byte(needle: u8, hay: &[u8]) -> (r: Option<usize>)
    ensures
        r matches Some(i) ==> i < hay@.len() && hay@[i as int] == needle
            && forall|j: int| 0 <= j < i ==> hay@[j] != needle,
        r is None ==> forall|j: int| 0 <= j < hay@.len() ==> hay@[j] != needle,
{
    memchr::memchr(needle, hay)
}

/// The complete lines at the start of `buf` (without their `\n`), and the
/// number of bytes that they take up; the rest is an unfinished line.
pub fn take_lines(buf: &Vec<u8>) -> (r: (Vec<Vec<u8>>, usize))
    ensures
        r.1 <= buf@.len(),
        forall|j: int| r.1 <= j < buf@.len() ==> buf@[j] != 10u8,
        join_lines(r.0@.map_values(|l: Vec<u8>| l@)) == buf@.take(r.1 as int),
        forall|k: int| 0 <= k < r.0@.len() ==> forall|j: int| 0 <= j < (#[trigger] r.0@[k])@.len() ==> r.0@[k]@[j] != 10u8,
{
    let mut lines: Vec<Vec<u8>> = Vec::new();
    let mut from: usize = 0;
    loop
        invariant
            from <= buf@.len(),
            join_lines(lines@.map_values(|l: Vec<u8>| l@)) == buf@.take(from as int),
            forall|k: int| 0 <= k < lines@.len() ==> forall|j: int| 0 <= j < (#[trigger] lines@[k])@.len() ==> lines@[k]@[j] != 10u8,
        decreases buf@.len() - from,
    {
        let rest = slice_from(buf, from);
        let sl = rest.as_slice();
        assert(sl@ == rest@);
        assert(rest@.len() == buf@.len() - from);
        match find_byte(10u8, sl) {
            None => {
                proof {
                    assert forall|j: int| from <= j < buf@.len() implies buf@[j] != 10u8 by {
                        assert(rest@[j - from] == buf@[j]);
                    }
                }
                return (lines, from);
            },
            Some(to) => {
                let n = buf.len();
                assert(to < n - from);
                let line = slice_range(buf, from, from + to);
                let ghost l0 = lines@;
                lines.push(line);
                proof {
                    assert forall|j: int| 0 <= j < line@.len() implies line@[j] != 10u8 by {
                        assert(rest@[j] == buf@[from + j]);
                    }
                    assert(buf@.take(from + to + 1) =~= buf@.take(from as int) + line@ + seq![10u8]);
                    assert(lines@.map_values(|l: Vec<u8>| l@) =~= l0.map_values(|l: Vec<u8>| l@).push(line@));
                    assert(lines@.map_values(|l: Vec<u8>| l@).drop_last() =~= l0.map_values(|l: Vec<u8>| l@));
                    assert(rest@[to as int] == buf@[from + to]);
                }
                from = from + to + 1;
            },
        }
    }
}

/// The lines, each followed by `\n`.
pub open spec fn join_lines(ls: Seq<Seq<u8>>) -> Seq<u8>
    decreases ls.len(),
{
    if ls.len() == 0 {
        Seq::empty()
    } else {
        join_lines(ls.drop_last()) + ls.last() + seq![10u8]
    }
}

fn slice_from(buf: &Vec<u8>, from: usize) -> (r: Vec<u8>)
    requires
        from <= buf@.len(),
    ensures
        r@ == buf@.subrange(from as int, buf@.len() as int),
{
    slice_range(buf, from, buf.len())
}

fn slice_range(buf: &Vec<u8>, lo: usize, hi: usize) -> (r: Vec<u8>)
    requires
        lo <= hi <= buf@.len(),
    ensures
        r@ == buf@.subrange(lo as int, hi as int),
{
    let mut r: Vec<u8> = Vec::new();
    let mut i: usize = lo;
    while i < hi
        invariant
            lo <= i <= hi <= buf@.len(),
            r@ == buf@.subrange(lo as int, i as int),
        decreases hi - i,
    {
        r.push(buf[i]);
        i = i + 1;
    }
    r
}

/// What is left to do after a message has been carried out against the
/// database.
pub enum Action {
    /// nothing
    Nothing,
    /// end the session
    Quit,
    /// send these replies to the client
    Reply(Vec<String>),
    /// save and broadcast these changes
    Changes(Vec<Change>),
    /// query the store's history of `key` over `[from, to]`, and reply with
    /// the batches that `ask_hist` makes of the samples
    History { key: String, from: i64, to: i64 },
    /// pass this message to the updater worker
    Notify(UpdaterMsg),
}

/// `after` and `r` are what carrying out message `m` of client `addr` at
/// time `now` leaves of the database `before`.
pub open spec fn handled(before: DB, after: DB, m: Msg, addr: u64, now: int, r: Action) -> bool {
    match m {
        Msg::Tell { key, val, no_store } => r matches Action::Changes(cs)
            && tell_post(before, after, key, val, now, 0, no_store, addr, cs@),
        Msg::TellTS { key, val, time, ttl, no_store } => r matches Action::Changes(cs)
            && tell_post(before, after, key, val, time, ttl, no_store, addr, cs@),
        Msg::Ask { key, with_ts } => after == before && (r matches Action::Reply(v)
            && v@.len() == 1 && v@[0]@ == ask_text(before, key, with_ts)),
        Msg::AskWild { key, with_ts } => after == before && (r matches Action::Reply(v)
            && batches_of(v@, wc_lines(before.cells(), key, with_ts))),
        Msg::AskHist { key, from, delta } => after == before && if delta < 0 {
            r is Nothing
        } else {
            r matches Action::History { key: k, from: f, to: t } && k@ == key && f == from && t == from + delta
        },
        Msg::Lock { key, client, time, ttl } => r matches Action::Reply(v) && v@.len() == 1
            && lock_post(before, after, true, key, client, time, ttl, now, v@[0]@),
        Msg::Unlock { key, client } => r matches Action::Reply(v) && v@.len() == 1
            && lock_post(before, after, false, key, client, 0, 0, now, v@[0]@),
        Msg::Rewrite { new_prefix, old_prefix } => r is Nothing
            && rewrite_post(before, after, new_prefix, old_prefix),
        Msg::Subscribe { key, with_ts } => after == before
            && (r matches Action::Notify(UpdaterMsg::Subscription(a, k, t)) && a == addr && k@ == key && t == with_ts),
        Msg::Unsub { key, with_ts } => after == before
            && (r matches Action::Notify(UpdaterMsg::CancelSubscription(a, k, t)) && a == addr && k@ == key && t == with_ts),
        Msg::Quit => after == before && r is Quit,
        _ => after == before && r is Nothing,
    }
}

/// Carries out one message of client `addr` at time `now`.
pub fn handle_msg(db: &mut DB, msg: CacheMsg, addr: u64, now: i64) -> (r: Action)
    requires
        old(db).wf(),
        msg_times_ok(msg@),
        time_ok(now as int),
    ensures
        final(db).wf(),
        handled(*old(db), *final(db), msg@, addr, now as int, r),
{
    match msg {
        CacheMsg::Tell { key, val, no_store } => Action::Changes(db.tell(key.as_str(), val.as_str(), now, 0, no_store, addr)),
        CacheMsg::TellTS { key, val, time, ttl, no_store } => Action::Changes(db.tell(key.as_str(), val.as_str(), time, ttl, no_store, addr)),
        CacheMsg::Ask { key, with_ts } => {
            let mut v: Vec<String> = Vec::new();
            v.push(db.ask(key.as_str(), with_ts));
            Action::Reply(v)
        },
        CacheMsg::AskWild { key, with_ts } => Action::Reply(db.ask_wc(key.as_str(), with_ts)),
        CacheMsg::AskHist { key, from, delta } => match hist_range(from, delta) {
            None => Action::Nothing,
            Some((f, t)) => Action::History { key, from: f, to: t },
        },
        CacheMsg::Lock { key, client, time, ttl } => {
            let mut v: Vec<String> = Vec::new();
            v.push(db.lock(true, key.as_str(), client.as_str(), time, ttl, now));
            Action::Reply(v)
        },
        CacheMsg::Unlock { key, client } => {
            let mut v: Vec<String> = Vec::new();
            v.push(db.lock(false, key.as_str(), client.as_str(), 0, 0, now));
            Action::Reply(v)
        },
        CacheMsg::Rewrite { new_prefix, old_prefix } => {
            db.rewrite(new_prefix.as_str(), old_prefix.as_str());
            Action::Nothing
        },
        CacheMsg::Subscribe { key, with_ts } => Action::Notify(UpdaterMsg::Subscription(addr, key, with_ts)),
        CacheMsg::Unsub { key, with_ts } => Action::Notify(UpdaterMsg::CancelSubscription(addr, key, with_ts)),
        CacheMsg::Quit => Action::Quit,
        _ => Action::Nothing,
    }
}

/// Processes one line of client `addr` at time `now`: a line that is not a
/// message is ignored, an empty one ends the session.
pub fn process(db: &mut DB, line: &str, addr: u64, now: i64) -> (r: Action)
    requires
        old(db).wf(),
        now_ok(now as int),
    ensures
        final(db).wf(),
        match parse_spec(line@, now as int) {
            None => *final(db) == *old(db) && r is Nothing,
            Some(m) => handled(*old(db), *final(db), m, addr, now as int, r),
        },
{
    match CacheMsg::parse(line, now) {
        None => Action::Nothing,
        Some(m) => handle_msg(db, m, addr, now),
    }
}

/// Every change that a client's write makes names that client as its
/// source, so the updater worker skips the client's own subscriptions (see
/// `UpdaterSet::handle`): a client never receives its own writes back.
pub proof fn lemma_writes_name_their_source(before: DB, after: DB, m: Msg, addr: u64, now: int, r: Action)
    requires
        m is Tell || m is TellTS,
        handled(before, after, m, addr, now, r),
    ensures
        r matches Action::Changes(cs) && forall|j: int| 0 <= j < cs@.len() ==> (#[trigger] cs@[j]).source == Some(addr),
{
    if let Action::Changes(cs) = r {
        assert forall|j: int| 0 <= j < cs@.len() implies (#[trigger] cs@[j]).source == Some(addr) by {
            assert(cs@[j]@.source == cs@[j].source);
        }
    }
}

} // verus!
