//! Value records, and the split of a full key into category and subkey.

use vstd::prelude::*;
use crate::message::{CacheMsg, Msg, msg_text};
use crate::stamp::time_ok;
use crate::text::{chars_of, str_range, push_str, string_of};

verus! {

/// Number of entries to send back in one batch.
pub const BATCHSIZE: usize = 100;

/// An entry (without key) of the database.
///
/// - `time`: timestamp of the last change, in microseconds.
/// - `ttl`: time to live in microseconds; no expiry if zero.
/// - `value`: the value, or empty if deleted.
/// - `expired`: whether the value has expired or is deleted. For values read
///   back from store files this flag is the only sign of expiry.
#[derive(Clone, Debug)]
pub struct Entry {
    pub time: i64,
    pub ttl: i64,
    pub expired: bool,
    pub value: String,
}

/// The mathematical content of an `Entry`.
pub ghost struct EntryV {
    pub time: int,
    pub ttl: int,
    pub expired: bool,
    pub value: Seq<char>,
}

impl View for Entry {
    type V = EntryV;

    open spec fn view(&self) -> EntryV {
        EntryV { time: self.time as int, ttl: self.ttl as int, expired: self.expired, value: self.value@ }
    }
}

/// The entry that `Entry::new` makes.
pub open spec fn new_entry(time: int, ttl: int, value: Seq<char>) -> EntryV {
    EntryV { time, ttl, expired: value.len() == 0, value }
}

/// The Tell-type message that reports entry `e` under `key`.
pub open spec fn entry_msg(e: EntryV, key: Seq<char>, with_ts: bool) -> Msg {
    if with_ts {
        if e.expired {
            Msg::TellOldTS { key, val: e.value, time: e.time, ttl: e.ttl }
        } else {
            Msg::TellTS { key, val: e.value, time: e.time, ttl: e.ttl, no_store: false }
        }
    } else if e.expired {
        Msg::TellOld { key, val: e.value }
    } else {
        Msg::Tell { key, val: e.value, no_store: false }
    }
}

impl Entry {
    /// Time and ttl are within the handled bounds.
    pub open spec fn times_ok(&self) -> bool {
        time_ok(self.time as int) && time_ok(self.ttl as int)
    }

    /// A new entry; it counts as expired when the value is empty.
    pub fn new(time: i64, ttl: i64, value: &str) -> (r: Entry)
        ensures
            r.time == time,
            r.ttl == ttl,
            r.value@ == value@,
            r.expired == (value@.len() == 0),
    {
        let cs = chars_of(value);
        Entry { time, ttl, expired: cs.len() == 0, value: string_of(cs.as_slice()) }
    }

    /// A new entry that takes ownership of the value.
    pub fn new_owned(time: i64, ttl: i64, value: String) -> (r: Entry)
        ensures
            r.time == time,
            r.ttl == ttl,
            r.value == value,
            r.expired == (value@.len() == 0),
    {
        let empty = value.as_str().is_empty();
        Entry { time, ttl, expired: empty, value }
    }

    /// A copy of the entry.
    pub fn dup(&self) -> (r: Entry)
        ensures
            r == *self,
    {
        Entry { time: self.time, ttl: self.ttl, expired: self.expired, value: self.value.clone() }
    }

    /// The same entry, marked as expired.
    pub fn expired(self) -> (r: Entry)
        ensures
            r.time == self.time,
            r.ttl == self.ttl,
            r.value == self.value,
            r.expired,
    {
        let mut e = self;
        e.expired = true;
        e
    }

    /// Converts the entry into a Tell-type message.
    pub fn to_msg(&self, key: &str, with_ts: bool) -> (r: CacheMsg)
        ensures
            r@ == entry_msg(self@, key@, with_ts),
    {
        let k = string_of(chars_of(key).as_slice());
        let v = self.value.clone();
        if with_ts {
            if self.expired {
                CacheMsg::TellOldTS { key: k, val: v, time: self.time, ttl: self.ttl }
            } else {
                CacheMsg::TellTS { key: k, val: v, time: self.time, ttl: self.ttl, no_store: false }
            }
        } else if self.expired {
            CacheMsg::TellOld { key: k, val: v }
        } else {
            CacheMsg::Tell { key: k, val: v, no_store: false }
        }
    }

    /// The message that reports a missing entry: an expired, empty value
    /// with zero time.
    pub open spec fn no_msg_spec(key: Seq<char>, with_ts: bool) -> Msg {
        if with_ts {
            Msg::TellOldTS { key, val: Seq::empty(), time: 0, ttl: 0 }
        } else {
            Msg::TellOld { key, val: Seq::empty() }
        }
    }

    /// Returns a Tell-type message that represents a missing entry.
    pub fn no_msg(key: &str, with_ts: bool) -> (r: CacheMsg)
        ensures
            r@ == Entry::no_msg_spec(key@, with_ts),
    {
        let k = string_of(chars_of(key).as_slice());
        let empty: Vec<char> = Vec::new();
        if with_ts {
            CacheMsg::TellOldTS { key: k, val: string_of(empty.as_slice()), time: 0, ttl: 0 }
        } else {
            CacheMsg::TellOld { key: k, val: string_of(empty.as_slice()) }
        }
    }
}

/// The reserved category of keys without a `/`.
pub open spec fn nocat() -> Seq<char> {
    seq!['n', 'o', 'c', 'a', 't']
}

/// Index of the last `/` in `k`, or -1.
pub open spec fn last_slash(k: Seq<char>) -> int
    decreases k.len(),
{
    if k.len() == 0 {
        -1
    } else if k.last() == '/' {
        k.len() - 1
    } else {
        last_slash(k.drop_last())
    }
}

/// `(category, subkey)` of a full key: the parts around the last `/`, or
/// `nocat` and the whole key.
pub open spec fn split_spec(k: Seq<char>) -> (Seq<char>, Seq<char>) {
    let i = last_slash(k);
    if i >= 0 {
        (k.subrange(0, i), k.subrange(i + 1, k.len() as int))
    } else {
        (nocat(), k)
    }
}

/// The full key of a category and a subkey; `nocat` leaves no trace.
pub open spec fn construct_spec(cat: Seq<char>, sub: Seq<char>) -> Seq<char> {
    if cat == nocat() {
        sub
    } else {
        cat + seq!['/'] + sub
    }
}

proof fn lemma_last_slash(k: Seq<char>, i: int)
    requires
        -1 <= i < k.len(),
        i >= 0 ==> k[i] == '/',
        forall|j: int| i < j < k.len() ==> #[trigger] k[j] != '/',
    ensures
        last_slash(k) == i,
    decreases k.len(),
{
    if k.len() > 0 && i < k.len() - 1 {
        let t = k.drop_last();
        assert forall|j: int| i < j < t.len() implies #[trigger] t[j] != '/' by {
            assert(t[j] == k[j]);
        }
        lemma_last_slash(t, i);
    }
}

pub proof fn lemma_last_slash_bounds(k: Seq<char>)
    ensures
        -1 <= last_slash(k) < k.len(),
        last_slash(k) >= 0 ==> k[last_slash(k)] == '/',
        forall|j: int| last_slash(k) < j < k.len() ==> #[trigger] k[j] != '/',
    decreases k.len(),
{
    if k.len() > 0 && k.last() != '/' {
        lemma_last_slash_bounds(k.drop_last());
        assert forall|j: int| last_slash(k) < j < k.len() implies #[trigger] k[j] != '/' by {
            if j < k.len() - 1 {
                assert(k.drop_last()[j] == k[j]);
            }
        }
    }
}

/// Splits a full key into (category, subkey), with the correct handling of
/// keys without category.
pub fn split_key(key: &str) -> (r: (String, String))
    ensures
        (r.0@, r.1@) == split_spec(key@),
{
    let cs = chars_of(key);
    let mut i: usize = cs.len();
    while i > 0 && cs[i - 1] != '/'
        invariant
            i <= cs@.len(),
            forall|j: int| i <= j < cs@.len() ==> #[trigger] cs@[j] != '/',
        decreases i,
    {
        i = i - 1;
    }
    if i > 0 {
        proof {
            lemma_last_slash(cs@, i - 1);
        }
        (str_range(&cs, 0, i - 1), str_range(&cs, i, cs.len()))
    } else {
        proof {
            lemma_last_slash(cs@, -1);
        }
        let mut n: Vec<char> = Vec::new();
        n.push('n');
        n.push('o');
        n.push('c');
        n.push('a');
        n.push('t');
        assert(n@ =~= nocat());
        assert(cs@.subrange(0, cs@.len() as int) =~= cs@);
        (string_of(n.as_slice()), str_range(&cs, 0, cs.len()))
    }
}

/// Whether `cat` is the reserved category.
pub fn is_nocat(cat: &str) -> (r: bool)
    ensures
        r == (cat@ == nocat()),
{
    let mut n: Vec<char> = Vec::new();
    n.push('n');
    n.push('o');
    n.push('c');
    n.push('a');
    n.push('t');
    assert(n@ =~= nocat());
    let cs = chars_of(cat);
    assert(cs@.subrange(0, cs@.len() as int) =~= cs@);
    crate::text::chars_eq(&cs, 0, cs.len(), &n)
}

/// Builds a full key from category and subkey.
pub fn construct_key(catname: &str, subkey: &str) -> (r: String)
    ensures
        r@ == construct_spec(catname@, subkey@),
{
    let mut out: Vec<char> = Vec::new();
    if !is_nocat(catname) {
        push_str(&mut out, catname);
        out.push('/');
    }
    push_str(&mut out, subkey);
    assert(out@ =~= construct_spec(catname@, subkey@));
    string_of(out.as_slice())
}

/// Splitting a key and joining the parts gives the key back, unless the key
/// names the reserved category explicitly (`nocat/x` joins back as `x`).
pub proof fn lemma_split_construct(k: Seq<char>)
    requires
        !(last_slash(k) >= 0 && split_spec(k).0 == nocat()),
    ensures
        construct_spec(split_spec(k).0, split_spec(k).1) == k,
{
    lemma_last_slash_bounds(k);
    let i = last_slash(k);
    if i >= 0 {
        assert(k.subrange(0, i) + seq!['/'] + k.subrange(i + 1, k.len() as int) =~= k);
    }
}

/// A key and an entry, with the two serialized forms of its update cached, so
/// that a fan-out to many subscribers formats each form at most once.
pub struct UpdaterEntry {
    key: String,
    val: Entry,
    cache_ts: Option<String>,
    cache_plain: Option<String>,
}

impl UpdaterEntry {
    /// The cached forms are those of the key and entry.
    pub closed spec fn wf(&self) -> bool {
        &&& self.val.times_ok()
        &&& (self.cache_ts matches Some(s) ==> s@ == msg_text(entry_msg(self.val@, self.key@, true)))
        &&& (self.cache_plain matches Some(s) ==> s@ == msg_text(entry_msg(self.val@, self.key@, false)))
    }

    pub closed spec fn key_view(&self) -> Seq<char> {
        self.key@
    }

    pub closed spec fn entry_view(&self) -> EntryV {
        self.val@
    }

    pub fn new(key: String, val: &Entry) -> (r: UpdaterEntry)
        requires
            val.times_ok(),
        ensures
            r.wf(),
            r.key_view() == key@,
            r.entry_view() == val@,
    {
        UpdaterEntry { key, val: val.dup(), cache_ts: None, cache_plain: None }
    }

    /// The full key of the update.
    pub fn key(&self) -> (r: &str)
        ensures
            r@ == self.key_view(),
    {
        self.key.as_str()
    }

    /// The entry of the update.
    pub fn entry(&self) -> (r: &Entry)
        ensures
            r@ == self.entry_view(),
    {
        &self.val
    }

    /// The update as a protocol line, with or without timestamp; formatted
    /// once and then taken from the cache.
    pub fn get_msg(&mut self, with_ts: bool) -> (r: String)
        requires
            old(self).wf(),
        ensures
            final(self).wf(),
            final(self).key_view() == old(self).key_view(),
            final(self).entry_view() == old(self).entry_view(),
            r@ == msg_text(entry_msg(old(self).entry_view(), old(self).key_view(), with_ts)),
    {
        if with_ts {
            match &self.cache_ts {
                Some(s) => {
                    return s.clone();
                },
                None => {},
            }
            let s = self.val.to_msg(self.key.as_str(), true).to_string();
            self.cache_ts = Some(s.clone());
            s
        } else {
            match &self.cache_plain {
                Some(s) => {
                    return s.clone();
                },
                None => {},
            }
            let s = self.val.to_msg(self.key.as_str(), false).to_string();
            self.cache_plain = Some(s.clone());
            s
        }
    }
}

} // verus!
