//! Subscriptions and the fan-out of updates to subscribed clients.

use vstd::prelude::*;
use aho_corasick::AhoCorasick;
use crate::text::occurs_in;
use crate::database::str_views;
use crate::entry::{UpdaterEntry, entry_msg};
use crate::message::msg_text;

verus! {

/// A multi-pattern substring matcher (an Aho-Corasick automaton).
#[verifier::external_body]
pub struct Matcher {
    ac: AhoCorasick,
}

/// The patterns that a matcher was built from, in order.
pub uninterp spec fn matcher_patterns(m: Matcher) -> Seq<Seq<char>>;

/// Relies on `AhoCorasick::new`: an automaton over the given patterns, whose
/// identifiers are their positions in the list.
#[verifier::external_body]
fn build_matcher(pats: &Vec<String>) -> (m: Matcher)
    ensures
        matcher_patterns(m) == str_views(pats@),
{
    Matcher { ac: AhoCorasick::new(pats.iter()) }
}

/// Relies on `AhoCorasick::find` and `Match::pattern`: the identifier of a
/// pattern that occurs in `hay`, or `None` when none does. A match of UTF-8
/// bytes is a match of characters, since UTF-8 is self-synchronizing.
#[verifier::external_body]
fn find_pattern(m: &Matcher, hay: &str) -> (r: Option<usize>)
    ensures
        r matches Some(i) ==> i < matcher_patterns(*m).len() && occurs_in(matcher_patterns(*m)[i as int], hay@),
        r is None ==> forall|i: int| 0 <= i < matcher_patterns(*m).len() ==> !occurs_in(#[trigger] matcher_patterns(*m)[i], hay@),
{
    m.ac.find(hay).map(|x| x.pattern())
}

/// Whether some pattern of `pats` occurs in `key`.
pub open spec fn any_occurs(pats: Seq<Seq<char>>, key: Seq<char>) -> bool {
    exists|i: int| 0 <= i < pats.len() && occurs_in(#[trigger] pats[i], key)
}

/// The substring subscriptions of one client: those delivered without and
/// those delivered with timestamp, and a matcher over both lists.
pub struct Subscriptions {
    plain: Vec<String>,
    stamped: Vec<String>,
    tsindex: usize,
    searcher: Matcher,
}

impl Subscriptions {
    pub closed spec fn plain_view(&self) -> Seq<Seq<char>> {
        str_views(self.plain@)
    }

    pub closed spec fn stamped_view(&self) -> Seq<Seq<char>> {
        str_views(self.stamped@)
    }

    /// The matcher is built over the plain patterns, then the stamped ones.
    pub closed spec fn wf(&self) -> bool {
        &&& self.tsindex == self.plain@.len()
        &&& matcher_patterns(self.searcher) == str_views(self.plain@) + str_views(self.stamped@)
    }

    /// The flavours in which an update of `key` is delivered: `None` when no
    /// pattern matches; otherwise whether with timestamp, which is owed to a
    /// matching pattern of that list.
    pub open spec fn delivery_ok(&self, key: Seq<char>, r: Option<bool>) -> bool {
        match r {
            None => !any_occurs(self.plain_view(), key) && !any_occurs(self.stamped_view(), key),
            Some(true) => any_occurs(self.stamped_view(), key),
            Some(false) => any_occurs(self.plain_view(), key),
        }
    }

    /// No subscriptions.
    pub fn new() -> (r: Subscriptions)
        ensures
            r.wf(),
            r.plain_view().len() == 0,
            r.stamped_view().len() == 0,
    {
        let plain: Vec<String> = Vec::new();
        let stamped: Vec<String> = Vec::new();
        let mut all: Vec<String> = Vec::new();
        proof {
            assert(str_views(all@) =~= str_views(plain@) + str_views(stamped@));
        }
        let searcher = build_matcher(&all);
        Subscriptions { plain, stamped, tsindex: 0, searcher }
    }

    /// Rebuilds the matcher over both lists.
    fn subs_updated(&mut self)
        ensures
            final(self).wf(),
            final(self).plain@ == old(self).plain@,
            final(self).stamped@ == old(self).stamped@,
    {
        let mut all: Vec<String> = Vec::new();
        let mut i: usize = 0;
        while i < self.plain.len()
            invariant
                i <= self.plain@.len(),
                str_views(all@) == str_views(self.plain@).take(i as int),
            decreases self.plain@.len() - i,
        {
            let ghost a0 = all@;
            let x = self.plain[i].clone();
            all.push(x);
            assert(str_views(all@) =~= str_views(a0).push(x@));
            assert(str_views(all@) =~= str_views(self.plain@).take(i + 1));
            i = i + 1;
        }
        let mut j: usize = 0;
        while j < self.stamped.len()
            invariant
                i == self.plain@.len(),
                j <= self.stamped@.len(),
                str_views(all@) == str_views(self.plain@) + str_views(self.stamped@).take(j as int),
            decreases self.stamped@.len() - j,
        {
            let ghost a0 = all@;
            let x = self.stamped[j].clone();
            all.push(x);
            assert(str_views(all@) =~= str_views(a0).push(x@));
            assert(str_views(all@) =~= str_views(self.plain@) + str_views(self.stamped@).take(j + 1));
            j = j + 1;
        }
        assert(str_views(self.stamped@).take(j as int) =~= str_views(self.stamped@));
        assert(str_views(self.plain@).take(i as int) =~= str_views(self.plain@));
        self.searcher = build_matcher(&all);
        self.tsindex = self.plain.len();
    }

    /// Adds a subscription to the substring `key`.
    pub fn add_subscription(&mut self, key: String, with_ts: bool)
        ensures
            final(self).wf(),
            with_ts ==> final(self).stamped_view() == old(self).stamped_view().push(key@)
                && final(self).plain_view() == old(self).plain_view(),
            !with_ts ==> final(self).plain_view() == old(self).plain_view().push(key@)
                && final(self).stamped_view() == old(self).stamped_view(),
    {
        let ghost k = key@;
        if with_ts {
            self.stamped.push(key);
            assert(str_views(self.stamped@) =~= str_views(old(self).stamped@).push(k));
        } else {
            self.plain.push(key);
            assert(str_views(self.plain@) =~= str_views(old(self).plain@).push(k));
        }
        self.subs_updated();
    }

    /// Removes every subscription to exactly the substring `key`.
    pub fn remove_subscription(&mut self, key: String, with_ts: bool)
        ensures
            final(self).wf(),
            with_ts ==> final(self).stamped_view() == old(self).stamped_view().filter(|p: Seq<char>| p != key@)
                && final(self).plain_view() == old(self).plain_view(),
            !with_ts ==> final(self).plain_view() == old(self).plain_view().filter(|p: Seq<char>| p != key@)
                && final(self).stamped_view() == old(self).stamped_view(),
    {
        if with_ts {
            let kept = retain_other(&self.stamped, &key);
            self.stamped = kept;
        } else {
            let kept = retain_other(&self.plain, &key);
            self.plain = kept;
        }
        self.subs_updated();
    }

    /// Whether, and in which flavour, an update of `key` is delivered.
    pub fn delivery(&self, key: &str) -> (r: Option<bool>)
        requires
            self.wf(),
        ensures
            self.delivery_ok(key@, r),
    {
        let ghost pv = str_views(self.plain@);
        let ghost sv = str_views(self.stamped@);
        let ghost all = pv + sv;
        match find_pattern(&self.searcher, key) {
            None => {
                proof {
                    assert forall|i: int| 0 <= i < pv.len() implies !occurs_in(#[trigger] pv[i], key@) by {
                        assert(all[i] == pv[i]);
                    }
                    assert forall|i: int| 0 <= i < sv.len() implies !occurs_in(#[trigger] sv[i], key@) by {
                        assert(all[pv.len() + i] == sv[i]);
                    }
                }
                None
            },
            Some(i) => {
                if i >= self.tsindex {
                    proof {
                        assert(all[i as int] == sv[i - pv.len()]);
                    }
                    Some(true)
                } else {
                    proof {
                        assert(all[i as int] == pv[i as int]);
                    }
                    Some(false)
                }
            },
        }
    }
}

/// The strings of `v` other than `key`, in order.
fn retain_other(v: &Vec<String>, key: &String) -> (r: Vec<String>)
    ensures
        str_views(r@) == str_views(v@).filter(|p: Seq<char>| p != key@),
{
    let mut r: Vec<String> = Vec::new();
    let mut i: usize = 0;
    while i < v.len()
        invariant
            i <= v@.len(),
            str_views(r@) == str_views(v@).take(i as int).filter(|p: Seq<char>| p != key@),
        decreases v@.len() - i,
    {
        proof {
            let t = str_views(v@).take(i + 1);
            assert(t.drop_last() =~= str_views(v@).take(i as int));
            assert(t.last() == v@[i as int]@);
            assert(t =~= t.drop_last().push(t.last()));
            t.drop_last().lemma_filter_push(t.last(), |p: Seq<char>| p != key@);
        }
        if v[i] != *key {
            r.push(v[i].clone());
        }
        proof {
            assert(str_views(r@) =~= str_views(v@).take(i + 1).filter(|p: Seq<char>| p != key@));
        }
        i = i + 1;
    }
    assert(str_views(v@).take(i as int) =~= str_views(v@));
    r
}

/// The delivery object of one connected client: its address (a connection
/// identifier) and its subscriptions.
pub struct Updater {
    pub addr: u64,
    pub subs: Subscriptions,
}

impl Updater {
    pub closed spec fn subs_view(&self) -> Subscriptions {
        self.subs
    }

    pub closed spec fn wf(&self) -> bool {
        self.subs.wf()
    }

    pub fn new(addr: u64) -> (r: Updater)
        ensures
            r.wf(),
            r.addr == addr,
            r.subs_view().plain_view().len() == 0,
            r.subs_view().stamped_view().len() == 0,
    {
        Updater { addr, subs: Subscriptions::new() }
    }

    /// Adds a subscription for this client.
    pub fn add_subscription(&mut self, key: String, with_ts: bool)
        ensures
            final(self).wf(),
            final(self).addr == old(self).addr,
            with_ts ==> final(self).subs_view().stamped_view() == old(self).subs_view().stamped_view().push(key@)
                && final(self).subs_view().plain_view() == old(self).subs_view().plain_view(),
            !with_ts ==> final(self).subs_view().plain_view() == old(self).subs_view().plain_view().push(key@)
                && final(self).subs_view().stamped_view() == old(self).subs_view().stamped_view(),
    {
        self.subs.add_subscription(key, with_ts);
    }

    /// Removes a subscription of this client.
    pub fn remove_subscription(&mut self, key: String, with_ts: bool)
        ensures
            final(self).wf(),
            final(self).addr == old(self).addr,
            with_ts ==> final(self).subs_view().stamped_view() == old(self).subs_view().stamped_view().filter(|p: Seq<char>| p != key@)
                && final(self).subs_view().plain_view() == old(self).subs_view().plain_view(),
            !with_ts ==> final(self).subs_view().plain_view() == old(self).subs_view().plain_view().filter(|p: Seq<char>| p != key@)
                && final(self).subs_view().stamped_view() == old(self).subs_view().stamped_view(),
    {
        self.subs.remove_subscription(key, with_ts);
    }

    /// The line to send to this client for the update, if a subscription
    /// matches its key.
    pub fn update(&self, entry: &mut UpdaterEntry) -> (r: Option<String>)
        requires
            self.wf(),
            old(entry).wf(),
        ensures
            final(entry).wf(),
            final(entry).key_view() == old(entry).key_view(),
            final(entry).entry_view() == old(entry).entry_view(),
            update_ok(self.subs_view(), old(entry).key_view(), old(entry).entry_view(), r),
    {
        match self.subs.delivery(entry.key()) {
            None => None,
            Some(with_ts) => Some(entry.get_msg(with_ts)),
        }
    }
}

/// `r` is what a client with subscriptions `subs` is sent for an update of
/// `key` to `e`: nothing when no pattern matches, else the update in the
/// flavour of a matching pattern.
pub open spec fn update_ok(subs: Subscriptions, key: Seq<char>, e: crate::entry::EntryV, r: Option<String>) -> bool {
    match r {
        None => subs.delivery_ok(key, None),
        Some(t) => exists|f: bool| #[trigger] subs.delivery_ok(key, Some(f)) && t@ == msg_text(entry_msg(e, key, f)),
    }
}

/// Messages to the updater worker.
pub enum UpdaterMsg {
    NewUpdater(u64),
    Update(UpdaterEntry, Option<u64>),
    Subscription(u64, String, bool),
    CancelSubscription(u64, String, bool),
    RemoveUpdater(u64),
}

/// The updater worker's list of connected clients.
pub struct UpdaterSet {
    updaters: Vec<Updater>,
}

impl UpdaterSet {
    pub closed spec fn view_seq(&self) -> Seq<Updater> {
        self.updaters@
    }

    pub open spec fn addrs(&self) -> Seq<u64> {
        self.view_seq().map_values(|u: Updater| u.addr)
    }

    pub closed spec fn wf(&self) -> bool {
        forall|i: int| 0 <= i < self.updaters@.len() ==> (#[trigger] self.updaters@[i]).wf()
    }

    pub fn new() -> (r: UpdaterSet)
        ensures
            r.wf(),
            r.view_seq().len() == 0,
    {
        UpdaterSet { updaters: Vec::new() }
    }

    /// Index of the first client with address `addr`.
    fn find(&self, addr: u64) -> (r: Option<usize>)
        ensures
            r matches Some(i) ==> i < self.updaters@.len() && self.updaters@[i as int].addr == addr
                && forall|j: int| 0 <= j < i ==> (#[trigger] self.updaters@[j]).addr != addr,
            r is None ==> forall|j: int| 0 <= j < self.updaters@.len() ==> (#[trigger] self.updaters@[j]).addr != addr,
    {
        let mut i: usize = 0;
        while i < self.updaters.len()
            invariant
                i <= self.updaters@.len(),
                forall|j: int| 0 <= j < i ==> (#[trigger] self.updaters@[j]).addr != addr,
            decreases self.updaters@.len() - i,
        {
            if self.updaters[i].addr == addr {
                return Some(i);
            }
            i = i + 1;
        }
        None
    }

    /// Carries out one message. For an update, returns the lines to send:
    /// one entry per client, in order, with its address and, unless the
    /// client made the change itself, the line that its subscriptions ask for.
    pub fn handle(&mut self, msg: UpdaterMsg) -> (r: Vec<(u64, Option<String>)>)
        requires
            old(self).wf(),
            msg matches UpdaterMsg::Update(e, _) ==> e.wf(),
        ensures
            final(self).wf(),
            match msg {
                UpdaterMsg::Update(e, source) => {
                    &&& final(self).view_seq() == old(self).view_seq()
                    &&& r@.len() == old(self).view_seq().len()
                    &&& forall|i: int| 0 <= i < r@.len() ==> {
                        let u = #[trigger] old(self).view_seq()[i];
                        &&& r@[i].0 == u.addr
                        &&& (source == Some(u.addr) ==> r@[i].1 is None)
                        &&& (source != Some(u.addr) ==> update_ok(u.subs_view(), e.key_view(), e.entry_view(), r@[i].1))
                    }
                },
                UpdaterMsg::NewUpdater(addr) => {
                    &&& r@.len() == 0
                    &&& final(self).view_seq().len() == old(self).view_seq().len() + 1
                    &&& final(self).view_seq().drop_last() == old(self).view_seq()
                    &&& final(self).view_seq().last().addr == addr
                    &&& final(self).view_seq().last().subs_view().plain_view().len() == 0
                    &&& final(self).view_seq().last().subs_view().stamped_view().len() == 0
                },
                UpdaterMsg::Subscription(addr, key, with_ts) => {
                    &&& r@.len() == 0
                    &&& final(self).addrs() == old(self).addrs()
                    &&& subscribed(old(self).view_seq(), final(self).view_seq(), addr, key@, with_ts, true)
                },
                UpdaterMsg::CancelSubscription(addr, key, with_ts) => {
                    &&& r@.len() == 0
                    &&& final(self).addrs() == old(self).addrs()
                    &&& subscribed(old(self).view_seq(), final(self).view_seq(), addr, key@, with_ts, false)
                },
                UpdaterMsg::RemoveUpdater(addr) => {
                    &&& r@.len() == 0
                    &&& final(self).view_seq() == old(self).view_seq().filter(|u: Updater| u.addr != addr)
                },
            },
    {
        let mut r: Vec<(u64, Option<String>)> = Vec::new();
        match msg {
            UpdaterMsg::Update(e, source) => {
                let mut entry = e;
                let ghost e0 = entry;
                let mut i: usize = 0;
                while i < self.updaters.len()
                    invariant
                        self.wf(),
                        i <= self.updaters@.len(),
                        entry.wf(),
                        entry.key_view() == e0.key_view(),
                        entry.entry_view() == e0.entry_view(),
                        r@.len() == i,
                        forall|k: int| 0 <= k < i ==> {
                            let u = #[trigger] self.updaters@[k];
                            &&& r@[k].0 == u.addr
                            &&& (source == Some(u.addr) ==> r@[k].1 is None)
                            &&& (source != Some(u.addr) ==> update_ok(u.subs_view(), e0.key_view(), e0.entry_view(), r@[k].1))
                        },
                    decreases self.updaters@.len() - i,
                {
                    let a = self.updaters[i].addr;
                    let skip = match source {
                        Some(s) => s == a,
                        None => false,
                    };
                    if skip {
                        r.push((a, None));
                    } else {
                        assert(self.updaters@[i as int].wf());
                        let line = self.updaters[i].update(&mut entry);
                        r.push((a, line));
                    }
                    i = i + 1;
                }
            },
            UpdaterMsg::NewUpdater(addr) => {
                self.updaters.push(Updater::new(addr));
                proof {
                    assert(self.updaters@.drop_last() =~= old(self).updaters@);
                }
            },
            UpdaterMsg::Subscription(addr, key, with_ts) => {
                match self.find(addr) {
                    Some(i) => {
                        let mut u = self.updaters.remove(i);
                        assert(u.wf());
                        u.add_subscription(key, with_ts);
                        self.updaters.insert(i, u);
                        proof {
                            assert(self.updaters@ =~= old(self).updaters@.update(i as int, u));
                            assert(self.addrs() =~= old(self).addrs());
                        }
                    },
                    None => {},
                }
            },
            UpdaterMsg::CancelSubscription(addr, key, with_ts) => {
                match self.find(addr) {
                    Some(i) => {
                        let mut u = self.updaters.remove(i);
                        assert(u.wf());
                        u.remove_subscription(key, with_ts);
                        self.updaters.insert(i, u);
                        proof {
                            assert(self.updaters@ =~= old(self).updaters@.update(i as int, u));
                            assert(self.addrs() =~= old(self).addrs());
                        }
                    },
                    None => {},
                }
            },
            UpdaterMsg::RemoveUpdater(addr) => {
                let mut kept: Vec<Updater> = Vec::new();
                let ghost s0 = self.updaters@;
                let mut old_list: Vec<Updater> = Vec::new();
                std::mem::swap(&mut old_list, &mut self.updaters);
                let mut i: usize = 0;
                let n = old_list.len();
                while old_list.len() > 0
                    invariant
                        forall|k: int| 0 <= k < s0.len() ==> (#[trigger] s0[k]).wf(),
                        i + old_list@.len() == s0.len(),
                        n == s0.len(),
                        old_list@ == s0.subrange(i as int, s0.len() as int),
                        kept@ == s0.take(i as int).filter(|u: Updater| u.addr != addr),
                        forall|k: int| 0 <= k < kept@.len() ==> (#[trigger] kept@[k]).wf(),
                    decreases old_list@.len(),
                {
                    let u = old_list.remove(0);
                    proof {
                        let t = s0.take(i + 1);
                        assert(t =~= s0.take(i as int).push(u));
                        s0.take(i as int).lemma_filter_push(u, |u: Updater| u.addr != addr);
                        assert(u == s0[i as int]);
                    }
                    if u.addr != addr {
                        kept.push(u);
                    }
                    i = i + 1;
                }
                assert(s0.take(i as int) =~= s0);
                self.updaters = kept;
            },
        }
        r
    }
}

/// `after` is `before` with the subscription of `key` added (or removed) for
/// the first client with address `addr`, and nothing else changed.
pub open spec fn subscribed(before: Seq<Updater>, after: Seq<Updater>, addr: u64, key: Seq<char>, with_ts: bool, add: bool) -> bool {
    &&& after.len() == before.len()
    &&& forall|i: int| 0 <= i < before.len() ==> {
        let b = #[trigger] before[i];
        let a = after[i];
        let first = b.addr == addr && forall|j: int| 0 <= j < i ==> (#[trigger] before[j]).addr != addr;
        if !first {
            a == b
        } else {
            let bp = b.subs_view().plain_view();
            let bs = b.subs_view().stamped_view();
            let ap = a.subs_view().plain_view();
            let as_ = a.subs_view().stamped_view();
            if add {
                if with_ts { as_ == bs.push(key) && ap == bp } else { ap == bp.push(key) && as_ == bs }
            } else {
                if with_ts {
                    as_ == bs.filter(|p: Seq<char>| p != key) && ap == bp
                } else {
                    ap == bp.filter(|p: Seq<char>| p != key) && as_ == bs
                }
            }
        }
    }
}

} // verus!
