//! The in-memory database: entries by category and subkey, prefix rewrites
//! and locks.
//!
//! The database is the authority on current values. It does not write to a
//! store or talk to subscribers itself: each operation returns the changes
//! that are to be persisted and broadcast, and the replies that are to be
//! sent, and the caller carries them out.

use vstd::prelude::*;
use crate::message::{CacheMsg, Msg, msg_text};
use crate::entry::{Entry, EntryV, new_entry, entry_msg, split_key, split_spec, construct_key, construct_spec, BATCHSIZE};
use crate::stamp::time_ok;
use crate::text::{chars_of, string_of, occurs_in, contains_chars};

verus! {

/// An entry of the database with its category and subkey.
pub struct Cell {
    pub cat: String,
    pub sub: String,
    pub entry: Entry,
}

/// A value under a string key.
pub struct Slot<V> {
    pub key: String,
    pub val: V,
}

/// A change to an entry: what is to be saved to the store and broadcast to
/// subscribers, and on whose behalf.
pub struct Change {
    pub cat: String,
    pub sub: String,
    pub entry: Entry,
    /// the change is to be written to the store
    pub save: bool,
    /// the change is to be sent to subscribers
    pub notify: bool,
    /// the client that made the change, whose own subscriptions skip it
    pub source: Option<u64>,
}

pub ghost struct ChangeV {
    pub cat: Seq<char>,
    pub sub: Seq<char>,
    pub entry: EntryV,
    pub save: bool,
    pub notify: bool,
    pub source: Option<u64>,
}

impl View for Change {
    type V = ChangeV;

    open spec fn view(&self) -> ChangeV {
        ChangeV {
            cat: self.cat@,
            sub: self.sub@,
            entry: self.entry@,
            save: self.save,
            notify: self.notify,
            source: self.source,
        }
    }
}

pub open spec fn cell_is(c: Cell, cat: Seq<char>, sub: Seq<char>) -> bool {
    c.cat@ == cat && c.sub@ == sub
}

/// Index of the cell for `(cat, sub)`, or -1.
pub open spec fn cell_idx(cells: Seq<Cell>, cat: Seq<char>, sub: Seq<char>) -> int
    decreases cells.len(),
{
    if cells.len() == 0 {
        -1
    } else if cell_is(cells.last(), cat, sub) {
        cells.len() - 1
    } else {
        cell_idx(cells.drop_last(), cat, sub)
    }
}

/// Index of the slot for `key`, or -1.
pub open spec fn slot_idx<V>(slots: Seq<Slot<V>>, key: Seq<char>) -> int
    decreases slots.len(),
{
    if slots.len() == 0 {
        -1
    } else if slots.last().key@ == key {
        slots.len() - 1
    } else {
        slot_idx(slots.drop_last(), key)
    }
}

/// The keys other than `v` of the slots whose value is `v`, in order.
pub open spec fn keys_with(slots: Seq<Slot<String>>, v: Seq<char>) -> Seq<Seq<char>>
    decreases slots.len(),
{
    if slots.len() == 0 {
        Seq::empty()
    } else if slots.last().val@ == v && slots.last().key@ != v {
        keys_with(slots.drop_last(), v).push(slots.last().key@)
    } else {
        keys_with(slots.drop_last(), v)
    }
}

proof fn lemma_cell_idx(cells: Seq<Cell>, cat: Seq<char>, sub: Seq<char>)
    ensures
        -1 <= cell_idx(cells, cat, sub) < cells.len(),
        cell_idx(cells, cat, sub) >= 0 ==> cell_is(cells[cell_idx(cells, cat, sub)], cat, sub),
        forall|j: int| cell_idx(cells, cat, sub) < j < cells.len() ==> !cell_is(#[trigger] cells[j], cat, sub),
    decreases cells.len(),
{
    if cells.len() > 0 && !cell_is(cells.last(), cat, sub) {
        lemma_cell_idx(cells.drop_last(), cat, sub);
        assert forall|j: int| cell_idx(cells, cat, sub) < j < cells.len() implies !cell_is(#[trigger] cells[j], cat, sub) by {
            if j < cells.len() - 1 {
                assert(cells.drop_last()[j] == cells[j]);
            }
        }
    }
}

proof fn lemma_cell_idx_at(cells: Seq<Cell>, cat: Seq<char>, sub: Seq<char>, i: int)
    requires
        -1 <= i < cells.len(),
        i >= 0 ==> cell_is(cells[i], cat, sub),
        forall|j: int| i < j < cells.len() ==> !cell_is(#[trigger] cells[j], cat, sub),
    ensures
        cell_idx(cells, cat, sub) == i,
    decreases cells.len(),
{
    if cells.len() > 0 && i < cells.len() - 1 {
        let t = cells.drop_last();
        assert forall|j: int| i < j < t.len() implies !cell_is(#[trigger] t[j], cat, sub) by {
            assert(t[j] == cells[j]);
        }
        lemma_cell_idx_at(t, cat, sub, i);
    }
}

/// Replacing a cell by one with the same key moves no key.
proof fn lemma_cell_idx_update(cells: Seq<Cell>, i: int, x: Cell, cat: Seq<char>, sub: Seq<char>)
    requires
        0 <= i < cells.len(),
        x.cat@ == cells[i].cat@,
        x.sub@ == cells[i].sub@,
    ensures
        cell_idx(cells.update(i, x), cat, sub) == cell_idx(cells, cat, sub),
{
    let u = cells.update(i, x);
    lemma_cell_idx(cells, cat, sub);
    let k = cell_idx(cells, cat, sub);
    assert forall|j: int| k < j < u.len() implies !cell_is(#[trigger] u[j], cat, sub) by {
        assert(!cell_is(cells[j], cat, sub));
    }
    lemma_cell_idx_at(u, cat, sub, k);
}

proof fn lemma_cell_idx_push(cells: Seq<Cell>, x: Cell, cat: Seq<char>, sub: Seq<char>)
    ensures
        cell_idx(cells.push(x), cat, sub) == if cell_is(x, cat, sub) { cells.len() as int } else {
            cell_idx(cells, cat, sub)
        },
{
    assert(cells.push(x).drop_last() =~= cells);
}

pub(crate) proof fn lemma_slot_idx<V>(slots: Seq<Slot<V>>, key: Seq<char>)
    ensures
        -1 <= slot_idx(slots, key) < slots.len(),
        slot_idx(slots, key) >= 0 ==> slots[slot_idx(slots, key)].key@ == key,
        forall|j: int| slot_idx(slots, key) < j < slots.len() ==> (#[trigger] slots[j]).key@ != key,
    decreases slots.len(),
{
    if slots.len() > 0 && slots.last().key@ != key {
        lemma_slot_idx(slots.drop_last(), key);
        assert forall|j: int| slot_idx(slots, key) < j < slots.len() implies (#[trigger] slots[j]).key@ != key by {
            if j < slots.len() - 1 {
                assert(slots.drop_last()[j] == slots[j]);
            }
        }
    }
}

proof fn lemma_slot_idx_at<V>(slots: Seq<Slot<V>>, key: Seq<char>, i: int)
    requires
        -1 <= i < slots.len(),
        i >= 0 ==> slots[i].key@ == key,
        forall|j: int| i < j < slots.len() ==> (#[trigger] slots[j]).key@ != key,
    ensures
        slot_idx(slots, key) == i,
    decreases slots.len(),
{
    if slots.len() > 0 && i < slots.len() - 1 {
        let t = slots.drop_last();
        assert forall|j: int| i < j < t.len() implies (#[trigger] t[j]).key@ != key by {
            assert(t[j] == slots[j]);
        }
        lemma_slot_idx_at(t, key, i);
    }
}

/// Keys are unique among the slots.
pub open spec fn slots_unique<V>(s: Seq<Slot<V>>) -> bool {
    forall|i: int, j: int| 0 <= i < j < s.len() ==> (#[trigger] s[i]).key@ != (#[trigger] s[j]).key@
}

/// The value under `key`.
pub open spec fn slot_get<V>(s: Seq<Slot<V>>, key: Seq<char>) -> Option<V> {
    let i = slot_idx(s, key);
    if i >= 0 {
        Some(s[i].val)
    } else {
        None
    }
}

proof fn lemma_slot_at<V>(s: Seq<Slot<V>>, key: Seq<char>, j: int)
    requires
        slots_unique(s),
        0 <= j < s.len(),
        s[j].key@ == key,
    ensures
        slot_idx(s, key) == j,
{
    assert forall|k: int| j < k < s.len() implies (#[trigger] s[k]).key@ != key by {
        assert(s[j].key@ != s[k].key@);
    }
    lemma_slot_idx_at(s, key, j);
}

proof fn lemma_slot_none<V>(s: Seq<Slot<V>>, key: Seq<char>)
    requires
        forall|j: int| 0 <= j < s.len() ==> (#[trigger] s[j]).key@ != key,
    ensures
        slot_idx(s, key) == -1,
{
    lemma_slot_idx_at(s, key, -1);
}

/// Removes the slot of `key`, if any.
pub(crate) fn slot_remove<V>(slots: &mut Vec<Slot<V>>, key: &String)
    requires
        slots_unique(old(slots)@),
    ensures
        slots_unique(final(slots)@),
        slot_get(final(slots)@, key@) is None,
        forall|k: Seq<char>| k != key@ ==> #[trigger] slot_get(final(slots)@, k) == slot_get(old(slots)@, k),
        forall|x: Slot<V>| final(slots)@.contains(x) ==> old(slots)@.contains(x),
{
    let ghost s0 = slots@;
    match find_slot(slots, key) {
        None => {},
        Some(i) => {
            proof {
                lemma_slot_idx(s0, key@);
            }
            slots.remove(i);
            proof {
                let s1 = slots@;
                assert(slots_unique(s1)) by {
                    assert forall|a: int, b: int| 0 <= a < b < s1.len() implies (#[trigger] s1[a]).key@ != (#[trigger] s1[b]).key@ by {
                        let a0 = if a < i { a } else { a + 1 };
                        let b0 = if b < i { b } else { b + 1 };
                        assert(s1[a] == s0[a0] && s1[b] == s0[b0]);
                    }
                }
                assert forall|j: int| 0 <= j < s1.len() implies (#[trigger] s1[j]).key@ != key@ by {
                    let j0 = if j < i { j } else { j + 1 };
                    assert(s1[j] == s0[j0]);
                    assert(s0[i as int].key@ != s0[j0].key@);
                }
                lemma_slot_none(s1, key@);
                assert forall|k: Seq<char>| k != key@ implies #[trigger] slot_get(s1, k) == slot_get(s0, k) by {
                    lemma_slot_idx(s0, k);
                    let j0 = slot_idx(s0, k);
                    if j0 >= 0 {
                        let j = if j0 < i { j0 } else { j0 - 1 };
                        assert(s1[j] == s0[j0]);
                        lemma_slot_at(s1, k, j);
                    } else {
                        assert forall|j: int| 0 <= j < s1.len() implies (#[trigger] s1[j]).key@ != k by {
                            let jj = if j < i { j } else { j + 1 };
                            assert(s1[j] == s0[jj]);
                            lemma_slot_idx(s0, k);
                        }
                        lemma_slot_none(s1, k);
                    }
                }
                assert forall|x: Slot<V>| s1.contains(x) implies s0.contains(x) by {
                    let j = choose|j: int| 0 <= j < s1.len() && s1[j] == x;
                    let jj = if j < i { j } else { j + 1 };
                    assert(s0[jj] == x);
                }
            }
        },
    }
}

/// Sets the value under `key`.
pub(crate) fn slot_put<V>(slots: &mut Vec<Slot<V>>, key: &String, val: V)
    requires
        slots_unique(old(slots)@),
    ensures
        slots_unique(final(slots)@),
        slot_get(final(slots)@, key@) == Some(val),
        forall|k: Seq<char>| k != key@ ==> #[trigger] slot_get(final(slots)@, k) == slot_get(old(slots)@, k),
        forall|x: Slot<V>| final(slots)@.contains(x) ==> old(slots)@.contains(x) || x.val == val,
{
    let ghost s0 = slots@;
    let slot = Slot { key: key.clone(), val };
    match find_slot(slots, key) {
        Some(i) => {
            proof {
                lemma_slot_idx(s0, key@);
            }
            slots.set(i, slot);
            proof {
                let s1 = slots@;
                lemma_slot_idx(s0, key@);
                assert(slots_unique(s1)) by {
                    assert forall|a: int, b: int| 0 <= a < b < s1.len() implies (#[trigger] s1[a]).key@ != (#[trigger] s1[b]).key@ by {
                        assert(s0[a].key@ != s0[b].key@);
                    }
                }
                lemma_slot_at(s1, key@, i as int);
                assert forall|k: Seq<char>| k != key@ implies #[trigger] slot_get(s1, k) == slot_get(s0, k) by {
                    lemma_slot_idx(s0, k);
                    let j0 = slot_idx(s0, k);
                    if j0 >= 0 {
                        lemma_slot_at(s1, k, j0);
                    } else {
                        assert forall|j: int| 0 <= j < s1.len() implies (#[trigger] s1[j]).key@ != k by {
                            if j != i {
                                assert(s1[j] == s0[j]);
                            }
                        }
                        lemma_slot_none(s1, k);
                    }
                }
                assert forall|x: Slot<V>| s1.contains(x) implies s0.contains(x) || x.val == val by {
                    let j = choose|j: int| 0 <= j < s1.len() && s1[j] == x;
                    if j != i {
                        assert(s0[j] == x);
                    }
                }
            }
        },
        None => {
            slots.push(slot);
            proof {
                let s1 = slots@;
                assert(slots_unique(s1)) by {
                    assert forall|a: int, b: int| 0 <= a < b < s1.len() implies (#[trigger] s1[a]).key@ != (#[trigger] s1[b]).key@ by {
                        if b == s0.len() {
                            lemma_slot_idx(s0, key@);
                            assert(s1[a] == s0[a]);
                        } else {
                            assert(s0[a].key@ != s0[b].key@);
                        }
                    }
                }
                lemma_slot_at(s1, key@, s0.len() as int);
                assert forall|k: Seq<char>| k != key@ implies #[trigger] slot_get(s1, k) == slot_get(s0, k) by {
                    assert(s1.drop_last() =~= s0);
                    lemma_slot_idx(s0, k);
                    if slot_idx(s0, k) >= 0 {
                        assert(s1[slot_idx(s0, k)] == s0[slot_idx(s0, k)]);
                    }
                }
                assert forall|x: Slot<V>| s1.contains(x) implies s0.contains(x) || x.val == val by {
                    let j = choose|j: int| 0 <= j < s1.len() && s1[j] == x;
                    if j < s0.len() {
                        assert(s0[j] == x);
                    }
                }
            }
        },
    }
}

/// The database of entries, locks and rewrites.
pub struct DB {
    /// entries, each under a distinct (category, subkey)
    cells: Vec<Cell>,
    /// lock entries, in a namespace of their own; the value is the holder
    locks: Vec<Slot<Entry>>,
    /// rewrites, from each new prefix to its old one
    inv_rewrites: Vec<Slot<String>>,
}

impl DB {
    pub closed spec fn cells(&self) -> Seq<Cell> {
        self.cells@
    }

    pub closed spec fn locks(&self) -> Seq<Slot<Entry>> {
        self.locks@
    }

    pub closed spec fn inv_rewrites(&self) -> Seq<Slot<String>> {
        self.inv_rewrites@
    }

    /// The entry under category `cat` and subkey `sub`.
    pub open spec fn lookup(&self, cat: Seq<char>, sub: Seq<char>) -> Option<EntryV> {
        let i = cell_idx(self.cells(), cat, sub);
        if i >= 0 {
            Some(self.cells()[i].entry@)
        } else {
            None
        }
    }

    /// The lock entry of `key`.
    pub open spec fn lock_of(&self, key: Seq<char>) -> Option<EntryV> {
        match slot_get(self.locks(), key) {
            Some(e) => Some(e@),
            None => None,
        }
    }

    /// The old prefix that writes are mirrored from into category `new`.
    pub open spec fn rewrite_of(&self, new: Seq<char>) -> Option<Seq<char>> {
        match slot_get(self.inv_rewrites(), new) {
            Some(o) => Some(o@),
            None => None,
        }
    }

    /// The categories that a write under `cat` goes to: `cat` itself, then
    /// each other category that mirrors it.
    pub open spec fn mirrors(&self, cat: Seq<char>) -> Seq<Seq<char>> {
        seq![cat] + keys_with(self.inv_rewrites(), cat)
    }

    /// Keys are unique in each table, and every entry is within bounds, with
    /// an empty value only where it is expired.
    pub closed spec fn wf(&self) -> bool {
        &&& forall|i: int, j: int|
            0 <= i < j < self.cells@.len() ==> !cell_is(#[trigger] self.cells@[i], (#[trigger] self.cells@[j]).cat@, self.cells@[j].sub@)
        &&& slots_unique(self.locks@)
        &&& slots_unique(self.inv_rewrites@)
        &&& forall|i: int| 0 <= i < self.cells@.len() ==> entry_ok(#[trigger] self.cells@[i].entry@)
        &&& forall|x: Slot<Entry>| self.locks@.contains(x) ==> entry_ok(x.val@)
    }

    /// An empty database.
    pub fn new() -> (r: DB)
        ensures
            r.wf(),
            r.cells().len() == 0,
            r.locks().len() == 0,
            r.inv_rewrites().len() == 0,
    {
        DB { cells: Vec::new(), locks: Vec::new(), inv_rewrites: Vec::new() }
    }

    /// Index of the cell for `(cat, sub)`.
    fn find_cell(&self, cat: &String, sub: &String) -> (r: Option<usize>)
        ensures
            r matches Some(i) ==> i as int == cell_idx(self.cells(), cat@, sub@),
            r is None ==> cell_idx(self.cells(), cat@, sub@) == -1,
    {
        let mut i: usize = self.cells.len();
        while i > 0
            invariant
                i <= self.cells@.len(),
                forall|j: int| i <= j < self.cells@.len() ==> !cell_is(#[trigger] self.cells@[j], cat@, sub@),
            decreases i,
        {
            if self.cells[i - 1].cat == *cat && self.cells[i - 1].sub == *sub {
                proof {
                    lemma_cell_idx_at(self.cells@, cat@, sub@, i - 1);
                }
                return Some(i - 1);
            }
            i = i - 1;
        }
        proof {
            lemma_cell_idx_at(self.cells@, cat@, sub@, -1);
        }
        None
    }
}

/// An entry within bounds whose value is empty only where it is expired.
pub open spec fn entry_ok(e: EntryV) -> bool {
    time_ok(e.time) && time_ok(e.ttl) && (e.value.len() == 0 ==> e.expired)
}

/// Index of the slot for `key`.
pub(crate) fn find_slot<V>(slots: &Vec<Slot<V>>, key: &String) -> (r: Option<usize>)
    ensures
        r matches Some(i) ==> i as int == slot_idx(slots@, key@),
        r is None ==> slot_idx(slots@, key@) == -1,
{
    let mut i: usize = slots.len();
    while i > 0
        invariant
            i <= slots@.len(),
            forall|j: int| i <= j < slots@.len() ==> (#[trigger] slots@[j]).key@ != key@,
        decreases i,
    {
        if slots[i - 1].key == *key {
            proof {
                lemma_slot_idx_at(slots@, key@, i - 1);
            }
            return Some(i - 1);
        }
        i = i - 1;
    }
    proof {
        lemma_slot_idx_at(slots@, key@, -1);
    }
    None
}

/// Whether a write of `val` over the entry `old` is a real change that must
/// be recorded: not when the same live value is written again (only time
/// and ttl are refreshed), nor when an expired entry is deleted again.
pub open spec fn need_update(old: Option<EntryV>, val: Seq<char>) -> bool {
    match old {
        None => true,
        Some(e) => !(e.value == val && !e.expired) && !(val.len() == 0 && e.expired),
    }
}

/// `ms[j]` does not occur earlier in `ms`.
pub open spec fn first_occurrence(ms: Seq<Seq<char>>, j: int) -> bool {
    forall|k: int| 0 <= k < j ==> ms[k] != ms[j]
}

/// The change that a write of `val` under subkey `sub` makes in the
/// `j`-th mirror category `ms[j]`, over the database `db` as it was before
/// the write.
pub open spec fn tell_change(db: DB, ms: Seq<Seq<char>>, j: int, sub: Seq<char>, val: Seq<char>,
    time: int, ttl: int, no_store: bool, from: u64) -> ChangeV {
    let need = first_occurrence(ms, j) && need_update(db.lookup(ms[j], sub), val);
    ChangeV {
        cat: ms[j],
        sub,
        entry: new_entry(time, ttl, val),
        save: need && !no_store,
        notify: need || no_store,
        source: Some(from),
    }
}

pub open spec fn str_views(v: Seq<String>) -> Seq<Seq<char>> {
    v.map_values(|s: String| s@)
}

impl DB {
    /// The categories that a write under `cat` goes to.
    fn mirror_cats(&self, cat: &String) -> (r: Vec<String>)
        ensures
            str_views(r@) == self.mirrors(cat@),
    {
        let mut r: Vec<String> = Vec::new();
        r.push(cat.clone());
        let mut i: usize = 0;
        while i < self.inv_rewrites.len()
            invariant
                i <= self.inv_rewrites@.len(),
                str_views(r@) == seq![cat@] + keys_with(self.inv_rewrites@.take(i as int), cat@),
            decreases self.inv_rewrites@.len() - i,
        {
            let ghost r0 = r@;
            proof {
                let t = self.inv_rewrites@.take(i + 1);
                assert(t.drop_last() =~= self.inv_rewrites@.take(i as int));
                assert(t.last() == self.inv_rewrites@[i as int]);
            }
            if self.inv_rewrites[i].val == *cat && self.inv_rewrites[i].key != *cat {
                r.push(self.inv_rewrites[i].key.clone());
                assert(str_views(r@) =~= str_views(r0).push(self.inv_rewrites@[i as int].key@));
            }
            proof {
                assert(str_views(r@) =~= seq![cat@] + keys_with(self.inv_rewrites@.take(i + 1), cat@));
            }
            i = i + 1;
        }
        assert(self.inv_rewrites@.take(i as int) =~= self.inv_rewrites@);
        r
    }

    /// Sets the entry of `(cat, sub)` to the write of `val`, and says whether
    /// that was a real change (see `need_update`).
    fn write_cell(&mut self, cat: &String, sub: &String, val: &String, time: i64, ttl: i64) -> (need: bool)
        requires
            old(self).wf(),
            time_ok(time as int),
            time_ok(ttl as int),
        ensures
            final(self).wf(),
            need == need_update(old(self).lookup(cat@, sub@), val@),
            final(self).lookup(cat@, sub@) == Some(new_entry(time as int, ttl as int, val@)),
            forall|c: Seq<char>, s: Seq<char>| !(c == cat@ && s == sub@) ==> #[trigger] final(self).lookup(c, s) == old(self).lookup(c, s),
            final(self).locks() == old(self).locks(),
            final(self).inv_rewrites() == old(self).inv_rewrites(),
    {
        let ghost old_cells = self.cells@;
        match self.find_cell(cat, sub) {
            Some(i) => {
                proof {
                    lemma_cell_idx(old_cells, cat@, sub@);
                }
                let same = self.cells[i].entry.value == *val && !self.cells[i].entry.expired;
                let need = !same && !(val.as_str().is_empty() && self.cells[i].entry.expired);
                let value = if same { self.cells[i].entry.value.clone() } else { val.clone() };
                let cell = Cell {
                    cat: self.cells[i].cat.clone(),
                    sub: self.cells[i].sub.clone(),
                    entry: Entry::new_owned(time, ttl, value),
                };
                self.cells.set(i, cell);
                proof {
                    assert forall|c: Seq<char>, s: Seq<char>| !(c == cat@ && s == sub@) implies #[trigger] self.lookup(c, s) == old(self).lookup(c, s) by {
                        lemma_cell_idx_update(old_cells, i as int, cell, c, s);
                        lemma_cell_idx(old_cells, c, s);
                    }
                    lemma_cell_idx_update(old_cells, i as int, cell, cat@, sub@);
                    assert forall|a: int, b: int| 0 <= a < b < self.cells@.len() implies !cell_is(#[trigger] self.cells@[a], (#[trigger] self.cells@[b]).cat@, self.cells@[b].sub@) by {
                        assert(!cell_is(old_cells[a], old_cells[b].cat@, old_cells[b].sub@));
                    }
                    assert forall|a: int| 0 <= a < self.cells@.len() implies entry_ok(#[trigger] self.cells@[a].entry@) by {
                        if a != i {
                            assert(entry_ok(old_cells[a].entry@));
                        }
                    }
                }
                need
            },
            None => {
                let cell = Cell { cat: cat.clone(), sub: sub.clone(), entry: Entry::new_owned(time, ttl, val.clone()) };
                self.cells.push(cell);
                proof {
                    lemma_cell_idx_push(old_cells, cell, cat@, sub@);
                    assert forall|c: Seq<char>, s: Seq<char>| !(c == cat@ && s == sub@) implies #[trigger] self.lookup(c, s) == old(self).lookup(c, s) by {
                        lemma_cell_idx_push(old_cells, cell, c, s);
                        lemma_cell_idx(old_cells, c, s);
                    }
                    assert forall|a: int, b: int| 0 <= a < b < self.cells@.len() implies !cell_is(#[trigger] self.cells@[a], (#[trigger] self.cells@[b]).cat@, self.cells@[b].sub@) by {
                        if b == old_cells.len() {
                            lemma_cell_idx(old_cells, cat@, sub@);
                            assert(self.cells@[a] == old_cells[a]);
                        } else {
                            assert(!cell_is(old_cells[a], old_cells[b].cat@, old_cells[b].sub@));
                        }
                    }
                    assert forall|a: int| 0 <= a < self.cells@.len() implies entry_ok(#[trigger] self.cells@[a].entry@) by {
                        if a < old_cells.len() {
                            assert(entry_ok(old_cells[a].entry@));
                        }
                    }
                }
                true
            },
        }
    }
}

impl DB {
    /// Writes `val` under `key` with the given time and ttl, in the key's
    /// category and in every category that mirrors it. Returns, for each of
    /// those categories in turn, the change to save and to broadcast.
    pub fn tell(&mut self, key: &str, val: &str, time: i64, ttl: i64, no_store: bool, from: u64) -> (r: Vec<Change>)
        requires
            old(self).wf(),
            time_ok(time as int),
            time_ok(ttl as int),
        ensures
            final(self).wf(),
            tell_post(*old(self), *final(self), key@, val@, time as int, ttl as int, no_store, from, r@),
    {
        let (cat, sub) = split_key(key);
        let v = string_of(chars_of(val).as_slice());
        let ms = self.mirror_cats(&cat);
        let ghost msv = str_views(ms@);
        let ghost db0 = *self;
        proof {
            lemma_mirrors_distinct(db0, cat@);
        }
        let mut r: Vec<Change> = Vec::new();
        let mut j: usize = 0;
        while j < ms.len()
            invariant
                self.wf(),
                j <= ms@.len(),
                msv == str_views(ms@),
                msv == db0.mirrors(cat@),
                (cat@, sub@) == split_spec(key@),
                v@ == val@,
                time_ok(time as int),
                time_ok(ttl as int),
                r@.len() == j,
                forall|k: int| 0 <= k < j ==> (#[trigger] r@[k])@ == tell_change(db0, msv, k, sub@, val@, time as int, ttl as int, no_store, from),
                forall|k: int| 0 <= k < j ==> self.lookup(#[trigger] msv[k], sub@) == Some(new_entry(time as int, ttl as int, val@)),
                forall|c: Seq<char>, s: Seq<char>| !(s == sub@ && msv.take(j as int).contains(c)) ==> #[trigger] self.lookup(c, s) == db0.lookup(c, s),
                self.locks() == db0.locks(),
                self.inv_rewrites() == db0.inv_rewrites(),
            decreases ms@.len() - j,
        {
            let ghost before = *self;
            let c = &ms[j];
            assert(c@ == msv[j as int]);
            proof {
                if first_occurrence(msv, j as int) {
                    assert(!msv.take(j as int).contains(c@));
                } else {
                    let k = choose|k: int| 0 <= k < j && msv[k] == msv[j as int];
                    assert(self.lookup(msv[k], sub@) == Some(new_entry(time as int, ttl as int, val@)));
                }
            }
            let need = self.write_cell(c, &sub, &v, time, ttl);
            let ch = Change {
                cat: c.clone(),
                sub: sub.clone(),
                entry: Entry::new_owned(time, ttl, v.clone()),
                save: need && !no_store,
                notify: need || no_store,
                source: Some(from),
            };
            r.push(ch);
            proof {
                assert(msv.take(j + 1) =~= msv.take(j as int).push(msv[j as int]));
                assert forall|c2: Seq<char>, s: Seq<char>| !(s == sub@ && msv.take(j + 1).contains(c2)) implies #[trigger] self.lookup(c2, s) == db0.lookup(c2, s) by {
                    assert(!(s == sub@ && msv.take(j as int).contains(c2)));
                    if s == sub@ {
                        assert(c2 != c@) by {
                            if c2 == c@ {
                                assert(msv.take(j + 1)[j as int] == c2);
                            }
                        }
                    }
                    assert(before.lookup(c2, s) == db0.lookup(c2, s));
                }
                assert forall|k: int| 0 <= k < j + 1 implies self.lookup(#[trigger] msv[k], sub@) == Some(new_entry(time as int, ttl as int, val@)) by {
                    if k < j && msv[k] != c@ {
                        assert(before.lookup(msv[k], sub@) == Some(new_entry(time as int, ttl as int, val@)));
                    }
                }
                assert(r@[j as int]@ == tell_change(db0, msv, j as int, sub@, val@, time as int, ttl as int, no_store, from));
            }
            j = j + 1;
        }
        proof {
            assert(msv.take(j as int) =~= msv);
        }
        r
    }
}

/// A lock request is denied when another client holds the lock and it
/// either never expires or has not expired yet.
pub open spec fn lock_denied(e: EntryV, client: Seq<char>, now: int) -> bool {
    e.value != client && (e.ttl == 0 || now <= e.time + e.ttl)
}

/// Whether a lock (`acquire`) or unlock request of `client` over the lock
/// entry `held` is granted.
pub open spec fn lock_granted(held: Option<EntryV>, acquire: bool, client: Seq<char>, now: int) -> bool {
    match held {
        None => true,
        Some(e) => if acquire { !lock_denied(e, client, now) } else { e.value == client },
    }
}

/// The lock entry after the request.
pub open spec fn lock_after(held: Option<EntryV>, acquire: bool, client: Seq<char>, time: int, ttl: int, now: int) -> Option<EntryV> {
    if !lock_granted(held, acquire, client, now) {
        held
    } else if acquire {
        Some(new_entry(time, ttl, client))
    } else {
        None
    }
}

/// The client named in the reply: empty when granted, else the holder.
pub open spec fn lock_reply(held: Option<EntryV>, acquire: bool, client: Seq<char>, now: int) -> Seq<char> {
    if lock_granted(held, acquire, client, now) {
        Seq::empty()
    } else {
        held->0.value
    }
}

/// The name for what `str::to_lowercase` returns.
pub uninterp spec fn lower_of(s: Seq<char>) -> Seq<char>;

/// Relies on `str::to_lowercase`: the result depends on the characters alone,
/// and an empty string stays empty.
#[verifier::external_body]
fn to_lower(s: &str) -> (r: String)
    ensures
        r@ == lower_of(s@),
        s@.len() == 0 ==> r@.len() == 0,
{
    s.to_lowercase()
}

impl DB {
    /// Locks (`acquire`) or unlocks `key` on behalf of `client`; `now` is the
    /// current time. Returns the reply line: `LockRes` with an empty client
    /// when granted, or with the holder when denied.
    pub fn lock(&mut self, acquire: bool, key: &str, client: &str, time: i64, ttl: i64, now: i64) -> (r: String)
        requires
            old(self).wf(),
            time_ok(time as int),
            time_ok(ttl as int),
            time_ok(now as int),
        ensures
            final(self).wf(),
            lock_post(*old(self), *final(self), acquire, key@, client@, time as int, ttl as int, now as int, r@),
    {
        let k = string_of(chars_of(key).as_slice());
        let c = string_of(chars_of(client).as_slice());
        let ghost held = self.lock_of(key@);
        let mut holder: Vec<char> = Vec::new();
        match find_slot(&self.locks, &k) {
            Some(i) => {
                proof {
                    lemma_slot_idx(self.locks@, k@);
                    assert(self.locks@.contains(self.locks@[i as int]));
                }
                let e = &self.locks[i].val;
                let denied = if acquire {
                    e.value != c && (e.ttl == 0 || now <= e.time + e.ttl)
                } else {
                    e.value != c
                };
                if denied {
                    holder = chars_of(e.value.as_str());
                } else if acquire {
                    slot_put(&mut self.locks, &k, Entry::new_owned(time, ttl, c));
                } else {
                    slot_remove(&mut self.locks, &k);
                }
            },
            None => {
                if acquire {
                    slot_put(&mut self.locks, &k, Entry::new_owned(time, ttl, c));
                }
            },
        }
        let reply = CacheMsg::LockRes { key: k, client: string_of(holder.as_slice()) };
        reply.to_string()
    }

    /// Sets (or, with an empty `old_prefix`, removes) the rewrite that mirrors
    /// writes under category `old_prefix`, lower-cased, into category `new`.
    pub fn rewrite(&mut self, new: &str, old_prefix: &str)
        requires
            old(self).wf(),
        ensures
            final(self).wf(),
            rewrite_post(*old(self), *final(self), new@, old_prefix@),
    {
        let lowered = to_lower(old_prefix);
        let n = string_of(chars_of(new).as_slice());
        if lowered.as_str().is_empty() {
            slot_remove(&mut self.inv_rewrites, &n);
        } else {
            slot_put(&mut self.inv_rewrites, &n, lowered);
        }
    }
}

/// An entry that is live, has a ttl, and whose time plus ttl lies before `now`.
pub open spec fn expiring(e: EntryV, now: int) -> bool {
    !e.expired && e.ttl != 0 && e.time + e.ttl < now
}

/// `e` marked as expired.
pub open spec fn mark_expired(e: EntryV) -> EntryV {
    EntryV { expired: true, ..e }
}

/// The changes that a sweep at `now` makes, one per expiring cell, in order.
pub open spec fn sweep_changes(cells: Seq<Cell>, now: int) -> Seq<ChangeV>
    decreases cells.len(),
{
    if cells.len() == 0 {
        Seq::empty()
    } else {
        let c = cells.last();
        let rest = sweep_changes(cells.drop_last(), now);
        if expiring(c.entry@, now) {
            rest.push(ChangeV {
                cat: c.cat@,
                sub: c.sub@,
                entry: mark_expired(c.entry@),
                save: true,
                notify: true,
                source: None,
            })
        } else {
            rest
        }
    }
}

/// The reply lines of a wildcard query over `cells`: each entry whose full
/// key contains `wc`, in order.
pub open spec fn wc_lines(cells: Seq<Cell>, wc: Seq<char>, with_ts: bool) -> Seq<Seq<char>>
    decreases cells.len(),
{
    if cells.len() == 0 {
        Seq::empty()
    } else {
        let c = cells.last();
        let full = construct_spec(c.cat@, c.sub@);
        let rest = wc_lines(cells.drop_last(), wc, with_ts);
        if occurs_in(wc, full) {
            rest.push(msg_text(entry_msg(c.entry@, full, with_ts)))
        } else {
            rest
        }
    }
}

/// The `b`-th batch of `lines`: up to `BATCHSIZE` of them, concatenated.
pub open spec fn batch_of(lines: Seq<Seq<char>>, b: int) -> Seq<char> {
    let lo = 100 * b;
    let hi = if 100 * b + 100 < lines.len() { 100 * b + 100 } else { lines.len() as int };
    lines.subrange(lo, hi).flatten()
}

/// `r` holds the lines in batches of `BATCHSIZE`, the last one with the rest.
pub open spec fn batches_of(r: Seq<String>, lines: Seq<Seq<char>>) -> bool {
    &&& r.len() == lines.len() / 100 + 1
    &&& forall|b: int| 0 <= b < r.len() ==> (#[trigger] r[b])@ == batch_of(lines, b)
}

/// Groups lines into batches of `BATCHSIZE` and concatenates each batch; the
/// last batch holds the rest and may be empty.
pub fn batch_lines(lines: &Vec<String>) -> (r: Vec<String>)
    ensures
        batches_of(r@, str_views(lines@)),
{
    let ghost lv = str_views(lines@);
    let mut r: Vec<String> = Vec::new();
    let mut cur: Vec<char> = Vec::new();
    let mut cnt: usize = 0;
    let mut i: usize = 0;
    while i < lines.len()
        invariant
            lv == str_views(lines@),
            i <= lines@.len(),
            i == 100 * r@.len() + cnt,
            cnt < 100,
            forall|b: int| 0 <= b < r@.len() ==> (#[trigger] r@[b])@ == batch_of(lv, b),
            cur@ == lv.subrange(100 * r@.len() as int, i as int).flatten(),
        decreases lines@.len() - i,
    {
        crate::text::push_str(&mut cur, lines[i].as_str());
        proof {
            assert(lv.subrange(100 * r@.len() as int, i + 1) =~= lv.subrange(100 * r@.len() as int, i as int).push(lv[i as int]));
            lv.subrange(100 * r@.len() as int, i as int).lemma_flatten_push(lv[i as int]);
        }
        cnt = cnt + 1;
        i = i + 1;
        if cnt >= BATCHSIZE {
            let ghost nb = r@.len();
            r.push(string_of(cur.as_slice()));
            cur = Vec::new();
            cnt = 0;
            proof {
                assert(r@[nb as int]@ == batch_of(lv, nb as int));
                assert(lv.subrange(100 * r@.len() as int, i as int) =~= Seq::<Seq<char>>::empty());
            }
        }
    }
    let ghost nb = r@.len();
    r.push(string_of(cur.as_slice()));
    proof {
        assert(r@[nb as int]@ == batch_of(lv, nb as int));
    }
    r
}

/// The time range `[from, from + delta]` of a history query, or `None` for
/// a negative `delta`, which asks for nothing.
pub fn hist_range(from: i64, delta: i64) -> (r: Option<(i64, i64)>)
    requires
        time_ok(from as int),
        time_ok(delta as int),
    ensures
        r == (if delta < 0 { None } else { Some((from, (from + delta) as i64)) }),
{
    if delta < 0 {
        None
    } else {
        Some((from, from + delta))
    }
}

/// Samples as times and values.
pub open spec fn sample_views(v: Seq<(i64, String)>) -> Seq<(int, Seq<char>)> {
    v.map_values(|p: (i64, String)| (p.0 as int, p.1@))
}

/// The samples' times do not decrease.
pub open spec fn samples_in_order(s: Seq<(int, Seq<char>)>) -> bool {
    forall|i: int, j: int| 0 <= i < j < s.len() ==> (#[trigger] s[i]).0 <= (#[trigger] s[j]).0
}

/// Number of leading samples with a time up to `t`.
pub open spec fn lead_le(s: Seq<(int, Seq<char>)>, t: int) -> nat
    decreases s.len(),
{
    if s.len() > 0 && s[0].0 <= t {
        1 + lead_le(s.drop_first(), t)
    } else {
        0
    }
}

/// `s` with `x` inserted after the leading samples whose time is up to its own.
pub open spec fn insert_sample(s: Seq<(int, Seq<char>)>, x: (int, Seq<char>)) -> Seq<(int, Seq<char>)> {
    s.insert(lead_le(s, x.0) as int, x)
}

/// The samples in time order; samples with equal times keep their order.
pub open spec fn sort_samples_spec(s: Seq<(int, Seq<char>)>) -> Seq<(int, Seq<char>)>
    decreases s.len(),
{
    if s.len() == 0 {
        s
    } else {
        insert_sample(sort_samples_spec(s.drop_last()), s.last())
    }
}

proof fn lemma_lead_le(s: Seq<(int, Seq<char>)>, t: int, k: int)
    requires
        0 <= k <= s.len(),
        forall|j: int| 0 <= j < k ==> (#[trigger] s[j]).0 <= t,
        k == s.len() || s[k].0 > t,
    ensures
        lead_le(s, t) == k,
    decreases k,
{
    if k > 0 {
        assert forall|j: int| 0 <= j < k - 1 implies (#[trigger] s.drop_first()[j]).0 <= t by {
            assert(s.drop_first()[j] == s[j + 1]);
        }
        lemma_lead_le(s.drop_first(), t, k - 1);
    }
}

proof fn lemma_lead_le_props(s: Seq<(int, Seq<char>)>, t: int)
    ensures
        lead_le(s, t) <= s.len(),
        forall|j: int| 0 <= j < lead_le(s, t) ==> (#[trigger] s[j]).0 <= t,
        lead_le(s, t) < s.len() ==> s[lead_le(s, t) as int].0 > t,
    decreases s.len(),
{
    if s.len() > 0 && s[0].0 <= t {
        lemma_lead_le_props(s.drop_first(), t);
        assert forall|j: int| 0 <= j < lead_le(s, t) implies (#[trigger] s[j]).0 <= t by {
            if j > 0 {
                assert(s.drop_first()[j - 1] == s[j]);
            }
        }
    }
}

/// Inserting a sample into samples in time order keeps them in order.
proof fn lemma_insert_in_order(s: Seq<(int, Seq<char>)>, x: (int, Seq<char>))
    requires
        samples_in_order(s),
    ensures
        samples_in_order(insert_sample(s, x)),
        insert_sample(s, x).len() == s.len() + 1,
{
    lemma_lead_le_props(s, x.0);
    let p = lead_le(s, x.0) as int;
    let r = insert_sample(s, x);
    assert forall|i: int, j: int| 0 <= i < j < r.len() implies (#[trigger] r[i]).0 <= (#[trigger] r[j]).0 by {
        if j < p {
            assert(r[i] == s[i] && r[j] == s[j]);
        } else if j == p {
            assert(r[i] == s[i]);
        } else if i < p {
            assert(r[i] == s[i] && r[j] == s[j - 1]);
            assert(s[p].0 > x.0);
            assert(s[i].0 <= x.0);
        } else if i == p {
            assert(r[j] == s[j - 1]);
            assert(s[p].0 > x.0);
            if j - 1 > p {
                assert(s[p].0 <= s[j - 1].0);
            }
        } else {
            assert(r[i] == s[i - 1] && r[j] == s[j - 1]);
        }
    }
}

/// History replies come out in time order, whatever order the store gave
/// the samples in.
pub proof fn lemma_history_in_order(s: Seq<(int, Seq<char>)>)
    ensures
        samples_in_order(sort_samples_spec(s)),
        sort_samples_spec(s).len() == s.len(),
    decreases s.len(),
{
    if s.len() > 0 {
        lemma_history_in_order(s.drop_last());
        lemma_insert_in_order(sort_samples_spec(s.drop_last()), s.last());
    }
}

/// The samples in time order (see `sort_samples_spec`).
pub fn sort_samples(samples: &Vec<(i64, String)>) -> (r: Vec<(i64, String)>)
    requires
        forall|i: int| 0 <= i < samples@.len() ==> time_ok((#[trigger] samples@[i]).0 as int),
    ensures
        sample_views(r@) == sort_samples_spec(sample_views(samples@)),
        forall|i: int| 0 <= i < r@.len() ==> time_ok((#[trigger] r@[i]).0 as int),
{
    let ghost sv = sample_views(samples@);
    let mut out: Vec<(i64, String)> = Vec::new();
    let mut i: usize = 0;
    while i < samples.len()
        invariant
            i <= samples@.len(),
            sv == sample_views(samples@),
            forall|k: int| 0 <= k < samples@.len() ==> time_ok((#[trigger] samples@[k]).0 as int),
            sample_views(out@) == sort_samples_spec(sv.take(i as int)),
            forall|k: int| 0 <= k < out@.len() ==> time_ok((#[trigger] out@[k]).0 as int),
        decreases samples@.len() - i,
    {
        let t = samples[i].0;
        let mut p: usize = 0;
        while p < out.len() && out[p].0 <= t
            invariant
                p <= out@.len(),
                forall|j: int| 0 <= j < p ==> (#[trigger] out@[j]).0 <= t,
            decreases out@.len() - p,
        {
            p = p + 1;
        }
        let ghost ov = sample_views(out@);
        proof {
            assert forall|j: int| 0 <= j < p implies (#[trigger] ov[j]).0 <= t as int by {}
            lemma_lead_le(ov, t as int, p as int);
            let tk = sv.take(i + 1);
            assert(tk.drop_last() =~= sv.take(i as int));
            assert(tk.last() == (t as int, samples@[i as int].1@));
        }
        let ghost o0 = out@;
        out.insert(p, (t, samples[i].1.clone()));
        proof {
            assert(sample_views(out@) =~= ov.insert(p as int, (t as int, samples@[i as int].1@)));
            assert forall|k: int| 0 <= k < out@.len() implies time_ok((#[trigger] out@[k]).0 as int) by {
                if k < p {
                    assert(out@[k] == o0[k]);
                } else if k > p {
                    assert(out@[k] == o0[k - 1]);
                }
            }
        }
        i = i + 1;
    }
    assert(sv.take(i as int) =~= sv);
    out
}

/// The reply lines of a history query: each sample `(time, value)` as a
/// timestamped value of `key`.
pub open spec fn hist_lines(key: Seq<char>, samples: Seq<(int, Seq<char>)>) -> Seq<Seq<char>> {
    samples.map_values(|p: (int, Seq<char>)| msg_text(Msg::TellTS { key, val: p.1, time: p.0, ttl: 0, no_store: false }))
}

/// The batched replies of a history query over the samples that the store
/// gave, put in time order.
pub fn ask_hist(key: &str, samples: &Vec<(i64, String)>) -> (r: Vec<String>)
    requires
        forall|i: int| 0 <= i < samples@.len() ==> time_ok((#[trigger] samples@[i]).0 as int),
    ensures
        batches_of(r@, hist_lines(key@, sort_samples_spec(sample_views(samples@)))),
{
    let sorted = sort_samples(samples);
    let ghost hl = hist_lines(key@, sample_views(sorted@));
    let mut lines: Vec<String> = Vec::new();
    let mut i: usize = 0;
    while i < sorted.len()
        invariant
            i <= sorted@.len(),
            hl == hist_lines(key@, sample_views(sorted@)),
            forall|k: int| 0 <= k < sorted@.len() ==> time_ok((#[trigger] sorted@[k]).0 as int),
            str_views(lines@) == hl.take(i as int),
        decreases sorted@.len() - i,
    {
        let m = CacheMsg::TellTS {
            key: string_of(chars_of(key).as_slice()),
            val: sorted[i].1.clone(),
            time: sorted[i].0,
            ttl: 0,
            no_store: false,
        };
        let ghost l0 = lines@;
        let line = m.to_string();
        lines.push(line);
        proof {
            assert(hl[i as int] == line@);
            assert(str_views(lines@) =~= str_views(l0).push(line@));
            assert(hl.take(i + 1) =~= hl.take(i as int).push(line@));
        }
        i = i + 1;
    }
    assert(hl.take(i as int) =~= hl);
    batch_lines(&lines)
}

impl DB {
    /// The reply to a query for `key`: its entry, or the "missing" message.
    pub fn ask(&self, key: &str, with_ts: bool) -> (r: String)
        requires
            self.wf(),
        ensures
            r@ == ask_text(*self, key@, with_ts),
    {
        let (cat, sub) = split_key(key);
        match self.find_cell(&cat, &sub) {
            Some(i) => {
                proof {
                    lemma_cell_idx(self.cells@, cat@, sub@);
                    assert(entry_ok(self.cells@[i as int].entry@));
                }
                self.cells[i].entry.to_msg(key, with_ts).to_string()
            },
            None => Entry::no_msg(key, with_ts).to_string(),
        }
    }

    /// The batched replies to a wildcard query: every entry whose full key
    /// contains `wc`.
    pub fn ask_wc(&self, wc: &str, with_ts: bool) -> (r: Vec<String>)
        requires
            self.wf(),
        ensures
            batches_of(r@, wc_lines(self.cells(), wc@, with_ts)),
    {
        let w = chars_of(wc);
        let mut lines: Vec<String> = Vec::new();
        let mut i: usize = 0;
        while i < self.cells.len()
            invariant
                self.wf(),
                i <= self.cells@.len(),
                w@ == wc@,
                str_views(lines@) == wc_lines(self.cells@.take(i as int), wc@, with_ts),
            decreases self.cells@.len() - i,
        {
            let c = &self.cells[i];
            let full = construct_key(c.cat.as_str(), c.sub.as_str());
            let fc = chars_of(full.as_str());
            proof {
                assert(self.cells@.take(i + 1).drop_last() =~= self.cells@.take(i as int));
                assert(self.cells@.take(i + 1).last() == self.cells@[i as int]);
                assert(entry_ok(self.cells@[i as int].entry@));
            }
            if contains_chars(&fc, &w) {
                lines.push(c.entry.to_msg(full.as_str(), with_ts).to_string());
            }
            proof {
                assert(str_views(lines@) =~= wc_lines(self.cells@.take(i + 1), wc@, with_ts));
            }
            i = i + 1;
        }
        assert(self.cells@.take(i as int) =~= self.cells@);
        batch_lines(&lines)
    }

    /// Marks every entry whose ttl has run out by `now` as expired, and
    /// returns the changes to save and to broadcast, with no originator.
    pub fn clean(&mut self, now: i64) -> (r: Vec<Change>)
        requires
            old(self).wf(),
            time_ok(now as int),
        ensures
            final(self).wf(),
            final(self).cells().len() == old(self).cells().len(),
            forall|i: int| 0 <= i < old(self).cells().len() ==> {
                let c0 = #[trigger] old(self).cells()[i];
                let c1 = final(self).cells()[i];
                &&& c1.cat@ == c0.cat@
                &&& c1.sub@ == c0.sub@
                &&& c1.entry@ == if expiring(c0.entry@, now as int) { mark_expired(c0.entry@) } else { c0.entry@ }
            },
            forall|i: int| 0 <= i < final(self).cells().len() ==> !expiring(#[trigger] final(self).cells()[i].entry@, now as int),
            r@.map_values(|c: Change| c@) == sweep_changes(old(self).cells(), now as int),
            final(self).locks() == old(self).locks(),
            final(self).inv_rewrites() == old(self).inv_rewrites(),
    {
        let ghost c0 = self.cells@;
        let mut r: Vec<Change> = Vec::new();
        let mut i: usize = 0;
        while i < self.cells.len()
            invariant
                self.cells@.len() == c0.len(),
                i <= c0.len(),
                time_ok(now as int),
                forall|a: int, b: int|
                    0 <= a < b < c0.len() ==> !cell_is(#[trigger] c0[a], (#[trigger] c0[b]).cat@, c0[b].sub@),
                forall|a: int| 0 <= a < c0.len() ==> entry_ok(#[trigger] c0[a].entry@),
                forall|a: int| 0 <= a < c0.len() ==> {
                    let x = #[trigger] self.cells@[a];
                    &&& x.cat@ == c0[a].cat@
                    &&& x.sub@ == c0[a].sub@
                    &&& x.entry@ == if a < i && expiring(c0[a].entry@, now as int) { mark_expired(c0[a].entry@) } else { c0[a].entry@ }
                },
                r@.map_values(|c: Change| c@) == sweep_changes(c0.take(i as int), now as int),
                self.locks@ == old(self).locks@,
                self.inv_rewrites@ == old(self).inv_rewrites@,
            decreases c0.len() - i,
        {
            proof {
                assert(c0.take(i + 1).drop_last() =~= c0.take(i as int));
                assert(c0.take(i + 1).last() == c0[i as int]);
                assert(entry_ok(c0[i as int].entry@));
            }
            let e = &self.cells[i].entry;
            if !e.expired && e.ttl != 0 && e.time + e.ttl < now {
                let ne = Entry { time: e.time, ttl: e.ttl, expired: true, value: e.value.clone() };
                let cell = Cell { cat: self.cells[i].cat.clone(), sub: self.cells[i].sub.clone(), entry: ne };
                let ch = Change {
                    cat: self.cells[i].cat.clone(),
                    sub: self.cells[i].sub.clone(),
                    entry: cell.entry.dup(),
                    save: true,
                    notify: true,
                    source: None,
                };
                self.cells.set(i, cell);
                r.push(ch);
            }
            proof {
                assert(r@.map_values(|c: Change| c@) =~= sweep_changes(c0.take(i + 1), now as int));
            }
            i = i + 1;
        }
        proof {
            assert(c0.take(i as int) =~= c0);
            assert forall|a: int, b: int| 0 <= a < b < self.cells@.len() implies !cell_is(#[trigger] self.cells@[a], (#[trigger] self.cells@[b]).cat@, self.cells@[b].sub@) by {
                assert(!cell_is(c0[a], c0[b].cat@, c0[b].sub@));
            }
            assert forall|a: int| 0 <= a < self.cells@.len() implies entry_ok(#[trigger] self.cells@[a].entry@) by {
                assert(entry_ok(c0[a].entry@));
            }
        }
        r
    }

    /// Puts an entry, as read back from a store, under `(cat, sub)`.
    pub fn put(&mut self, cat: &str, sub: &str, entry: Entry)
        requires
            old(self).wf(),
            entry_ok(entry@),
        ensures
            final(self).wf(),
            final(self).lookup(cat@, sub@) == Some(entry@),
            forall|c: Seq<char>, s: Seq<char>| !(c == cat@ && s == sub@) ==> #[trigger] final(self).lookup(c, s) == old(self).lookup(c, s),
            final(self).locks() == old(self).locks(),
            final(self).inv_rewrites() == old(self).inv_rewrites(),
    {
        let c = string_of(chars_of(cat).as_slice());
        let s = string_of(chars_of(sub).as_slice());
        let ghost old_cells = self.cells@;
        let cell = Cell { cat: c, sub: s, entry };
        match self.find_cell(&cell.cat, &cell.sub) {
            Some(i) => {
                proof {
                    lemma_cell_idx(old_cells, cat@, sub@);
                }
                self.cells.set(i, cell);
                proof {
                    assert forall|c2: Seq<char>, s2: Seq<char>| !(c2 == cat@ && s2 == sub@) implies #[trigger] self.lookup(c2, s2) == old(self).lookup(c2, s2) by {
                        lemma_cell_idx_update(old_cells, i as int, cell, c2, s2);
                        lemma_cell_idx(old_cells, c2, s2);
                    }
                    lemma_cell_idx_update(old_cells, i as int, cell, cat@, sub@);
                    assert forall|a: int, b: int| 0 <= a < b < self.cells@.len() implies !cell_is(#[trigger] self.cells@[a], (#[trigger] self.cells@[b]).cat@, self.cells@[b].sub@) by {
                        assert(!cell_is(old_cells[a], old_cells[b].cat@, old_cells[b].sub@));
                    }
                    assert forall|a: int| 0 <= a < self.cells@.len() implies entry_ok(#[trigger] self.cells@[a].entry@) by {
                        if a != i {
                            assert(entry_ok(old_cells[a].entry@));
                        }
                    }
                }
            },
            None => {
                self.cells.push(cell);
                proof {
                    lemma_cell_idx_push(old_cells, cell, cat@, sub@);
                    assert forall|c2: Seq<char>, s2: Seq<char>| !(c2 == cat@ && s2 == sub@) implies #[trigger] self.lookup(c2, s2) == old(self).lookup(c2, s2) by {
                        lemma_cell_idx_push(old_cells, cell, c2, s2);
                        lemma_cell_idx(old_cells, c2, s2);
                    }
                    assert forall|a: int, b: int| 0 <= a < b < self.cells@.len() implies !cell_is(#[trigger] self.cells@[a], (#[trigger] self.cells@[b]).cat@, self.cells@[b].sub@) by {
                        if b == old_cells.len() {
                            lemma_cell_idx(old_cells, cat@, sub@);
                            assert(self.cells@[a] == old_cells[a]);
                        } else {
                            assert(!cell_is(old_cells[a], old_cells[b].cat@, old_cells[b].sub@));
                        }
                    }
                    assert forall|a: int| 0 <= a < self.cells@.len() implies entry_ok(#[trigger] self.cells@[a].entry@) by {
                        if a < old_cells.len() {
                            assert(entry_ok(old_cells[a].entry@));
                        }
                    }
                }
            },
        }
    }
}

/// What `tell` does: `after` and the changes `r` against `before`.
pub open spec fn tell_post(before: DB, after: DB, key: Seq<char>, val: Seq<char>, time: int, ttl: int,
    no_store: bool, from: u64, r: Seq<Change>) -> bool {
    let (cat, sub) = split_spec(key);
    let ms = before.mirrors(cat);
    &&& r.len() == ms.len()
    &&& forall|j: int| 0 <= j < ms.len() ==> #[trigger] first_occurrence(ms, j)
    &&& forall|j: int| 0 <= j < ms.len() ==> (#[trigger] r[j])@ == tell_change(before, ms, j, sub, val, time, ttl, no_store, from)
    &&& forall|j: int| 0 <= j < ms.len() ==> after.lookup(#[trigger] ms[j], sub) == Some(new_entry(time, ttl, val))
    &&& forall|c: Seq<char>, s: Seq<char>| !(s == sub && ms.contains(c)) ==> #[trigger] after.lookup(c, s) == before.lookup(c, s)
    &&& after.locks() == before.locks()
    &&& after.inv_rewrites() == before.inv_rewrites()
}

/// What `lock` does: `after` and the reply `r` against `before`.
pub open spec fn lock_post(before: DB, after: DB, acquire: bool, key: Seq<char>, client: Seq<char>,
    time: int, ttl: int, now: int, r: Seq<char>) -> bool {
    &&& r == msg_text(Msg::LockRes { key, client: lock_reply(before.lock_of(key), acquire, client, now) })
    &&& after.lock_of(key) == lock_after(before.lock_of(key), acquire, client, time, ttl, now)
    &&& forall|k: Seq<char>| k != key ==> #[trigger] after.lock_of(k) == before.lock_of(k)
    &&& after.cells() == before.cells()
    &&& after.inv_rewrites() == before.inv_rewrites()
}

/// What `rewrite` does: `after` against `before`.
pub open spec fn rewrite_post(before: DB, after: DB, new: Seq<char>, old_prefix: Seq<char>) -> bool {
    &&& after.rewrite_of(new) == (if lower_of(old_prefix).len() == 0 { None } else { Some(lower_of(old_prefix)) })
    &&& (old_prefix.len() == 0 ==> after.rewrite_of(new) is None)
    &&& forall|n: Seq<char>| n != new ==> #[trigger] after.rewrite_of(n) == before.rewrite_of(n)
    &&& after.cells() == before.cells()
    &&& after.locks() == before.locks()
}

/// The reply to a query for `key`: its entry, or the "missing" message.
pub open spec fn ask_text(db: DB, key: Seq<char>, with_ts: bool) -> Seq<char> {
    msg_text(match db.lookup(split_spec(key).0, split_spec(key).1) {
        Some(e) => entry_msg(e, key, with_ts),
        None => Entry::no_msg_spec(key, with_ts),
    })
}

/// The entries of category `cat`, in order, with their subkeys.
pub open spec fn cat_entries(cells: Seq<Cell>, cat: Seq<char>) -> Seq<(Seq<char>, EntryV)>
    decreases cells.len(),
{
    if cells.len() == 0 {
        Seq::empty()
    } else {
        let c = cells.last();
        let prev = cat_entries(cells.drop_last(), cat);
        if c.cat@ == cat { prev.push((c.sub@, c.entry@)) } else { prev }
    }
}

impl DB {
    /// The entries of category `cat`, with their subkeys.
    pub fn entries_in(&self, cat: &str) -> (r: Vec<(String, Entry)>)
        requires
            self.wf(),
        ensures
            r@.map_values(|p: (String, Entry)| (p.0@, p.1@)) == cat_entries(self.cells(), cat@),
            forall|i: int| 0 <= i < r@.len() ==> entry_ok((#[trigger] r@[i]).1@),
    {
        let c = string_of(chars_of(cat).as_slice());
        let mut r: Vec<(String, Entry)> = Vec::new();
        let mut i: usize = 0;
        while i < self.cells.len()
            invariant
                self.wf(),
                c@ == cat@,
                i <= self.cells@.len(),
                r@.map_values(|p: (String, Entry)| (p.0@, p.1@)) == cat_entries(self.cells@.take(i as int), cat@),
                forall|k: int| 0 <= k < r@.len() ==> entry_ok((#[trigger] r@[k]).1@),
            decreases self.cells@.len() - i,
        {
            proof {
                let t = self.cells@.take(i + 1);
                assert(t.drop_last() =~= self.cells@.take(i as int));
                assert(t.last() == self.cells@[i as int]);
                assert(entry_ok(self.cells@[i as int].entry@));
            }
            if self.cells[i].cat == c {
                let ghost r0 = r@;
                r.push((self.cells[i].sub.clone(), self.cells[i].entry.dup()));
                assert(r@.map_values(|p: (String, Entry)| (p.0@, p.1@)) =~= r0.map_values(|p: (String, Entry)| (p.0@, p.1@)).push((self.cells@[i as int].sub@, self.cells@[i as int].entry@)));
            }
            i = i + 1;
        }
        assert(self.cells@.take(i as int) =~= self.cells@);
        r
    }
}

/// Writing a key's value twice in a row: the second write is no real change
/// for the key itself; it saves nothing, and it is broadcast only where it
/// is marked not to be stored. (Only time and ttl change.)
pub proof fn lemma_same_value_twice(before: DB, mid: DB, key: Seq<char>, val: Seq<char>,
    t1: int, ttl1: int, ns1: bool, from1: u64, r1: Seq<Change>,
    t2: int, ttl2: int, ns2: bool, from2: u64)
    requires
        tell_post(before, mid, key, val, t1, ttl1, ns1, from1, r1),
    ensures
        ({
            let (cat, sub) = split_spec(key);
            let c = tell_change(mid, mid.mirrors(cat), 0, sub, val, t2, ttl2, ns2, from2);
            &&& mid.mirrors(cat)[0] == cat
            &&& !c.save
            &&& c.notify == ns2
            &&& c.entry == new_entry(t2, ttl2, val)
        }),
{
    let (cat, sub) = split_spec(key);
    let ms = before.mirrors(cat);
    assert(ms[0] == cat);
    assert(before.lookup(ms[0], sub) == before.lookup(ms[0], sub));
    assert(mid.lookup(ms[0], sub) == Some(new_entry(t1, ttl1, val)));
}

/// Writing the current live value of a key again is no real change for the
/// key itself: nothing is saved, and the change is broadcast only where it
/// is marked not to be stored.
pub proof fn lemma_same_value(db: DB, key: Seq<char>, val: Seq<char>, time: int, ttl: int, no_store: bool, from: u64)
    requires
        db.lookup(split_spec(key).0, split_spec(key).1) matches Some(e) && e.value == val && !e.expired,
    ensures
        ({
            let (cat, sub) = split_spec(key);
            let c = tell_change(db, db.mirrors(cat), 0, sub, val, time, ttl, no_store, from);
            !c.save && c.notify == no_store
        }),
{
}

/// Deleting a key whose entry has already expired is no real change for the
/// key itself: nothing is saved, and nothing is broadcast unless the write
/// is marked not to be stored.
pub proof fn lemma_delete_expired(db: DB, key: Seq<char>, time: int, ttl: int, no_store: bool, from: u64)
    requires
        db.lookup(split_spec(key).0, split_spec(key).1) matches Some(e) && e.expired,
    ensures
        ({
            let (cat, sub) = split_spec(key);
            let c = tell_change(db, db.mirrors(cat), 0, sub, Seq::empty(), time, ttl, no_store, from);
            !c.save && c.notify == no_store
        }),
{
}

/// Two clients asking for the same free lock, one after the other: the first
/// is granted it, and the second is denied with the first named as holder
/// for as long as the lock has not expired.
pub proof fn lemma_lock_exclusion(before: DB, mid: DB, after: DB, key: Seq<char>,
    c1: Seq<char>, t1: int, ttl1: int, now1: int, r1: Seq<char>,
    c2: Seq<char>, t2: int, ttl2: int, now2: int, r2: Seq<char>)
    requires
        before.lock_of(key) is None,
        lock_post(before, mid, true, key, c1, t1, ttl1, now1, r1),
        lock_post(mid, after, true, key, c2, t2, ttl2, now2, r2),
        c1 != c2,
        ttl1 == 0 || now2 <= t1 + ttl1,
    ensures
        r1 == msg_text(Msg::LockRes { key, client: Seq::empty() }),
        r2 == msg_text(Msg::LockRes { key, client: c1 }),
        after.lock_of(key) == mid.lock_of(key),
        mid.lock_of(key) == Some(new_entry(t1, ttl1, c1)),
{
}

/// An unlock by a client that does not hold the lock is denied, names the
/// holder, and leaves the lock as it was.
pub proof fn lemma_unlock_by_other(before: DB, after: DB, key: Seq<char>, client: Seq<char>, now: int, r: Seq<char>)
    requires
        before.lock_of(key) matches Some(e) && e.value != client,
        lock_post(before, after, false, key, client, 0, 0, now, r),
    ensures
        r == msg_text(Msg::LockRes { key, client: before.lock_of(key)->0.value }),
        after.lock_of(key) == before.lock_of(key),
{
}

proof fn lemma_keys_with_has(slots: Seq<Slot<String>>, v: Seq<char>, k: Seq<char>)
    ensures
        keys_with(slots, v).contains(k) <==> exists|i: int| 0 <= i < slots.len() && (#[trigger] slots[i]).key@ == k && slots[i].val@ == v && k != v,
    decreases slots.len(),
{
    if slots.len() > 0 {
        let t = slots.drop_last();
        let kw = keys_with(slots, v);
        let kt = keys_with(t, v);
        let last = slots.last();
        lemma_keys_with_has(t, v, k);
        if kw.contains(k) {
            let m = choose|m: int| 0 <= m < kw.len() && kw[m] == k;
            if m < kt.len() {
                assert(kt[m] == k);
                assert(kt.contains(k));
                let i = choose|i: int| 0 <= i < t.len() && (#[trigger] t[i]).key@ == k && t[i].val@ == v && k != v;
                assert(slots[i] == t[i]);
            } else {
                assert(last.val@ == v && last.key@ == k && k != v);
                assert(slots[slots.len() - 1] == last);
            }
        }
        if exists|i: int| 0 <= i < slots.len() && (#[trigger] slots[i]).key@ == k && slots[i].val@ == v && k != v {
            let i = choose|i: int| 0 <= i < slots.len() && (#[trigger] slots[i]).key@ == k && slots[i].val@ == v && k != v;
            if i < t.len() {
                assert(t[i] == slots[i]);
                assert(kt.contains(k));
                let m = choose|m: int| 0 <= m < kt.len() && kt[m] == k;
                assert(kw[m] == k);
            } else {
                assert(last == slots[i]);
                assert(kw == kt.push(k));
                assert(kw[kt.len() as int] == k);
            }
        }
    }
}

/// With unique keys, the mirroring categories are distinct.
proof fn lemma_keys_with_distinct(slots: Seq<Slot<String>>, v: Seq<char>)
    requires
        slots_unique(slots),
    ensures
        forall|a: int, b: int| 0 <= a < b < keys_with(slots, v).len() ==> keys_with(slots, v)[a] != keys_with(slots, v)[b],
    decreases slots.len(),
{
    if slots.len() > 0 {
        let t = slots.drop_last();
        assert(slots_unique(t)) by {
            assert forall|a: int, b: int| 0 <= a < b < t.len() implies (#[trigger] t[a]).key@ != (#[trigger] t[b]).key@ by {
                assert(t[a] == slots[a] && t[b] == slots[b]);
            }
        }
        lemma_keys_with_distinct(t, v);
        let last = slots.last();
        let kt = keys_with(t, v);
        if last.val@ == v && last.key@ != v {
            lemma_keys_with_has(t, v, last.key@);
            if kt.contains(last.key@) {
                let i = choose|i: int| 0 <= i < t.len() && (#[trigger] t[i]).key@ == last.key@ && t[i].val@ == v && last.key@ != v;
                assert(t[i] == slots[i]);
                assert(slots[i].key@ != slots[slots.len() - 1].key@);
            }
            let kw = keys_with(slots, v);
            assert forall|a: int, b: int| 0 <= a < b < kw.len() implies kw[a] != kw[b] by {
                if b == kt.len() {
                    assert(kw[a] == kt[a]);
                    if kw[a] == kw[b] {
                        assert(kt.contains(last.key@));
                    }
                } else {
                    assert(kw[a] == kt[a] && kw[b] == kt[b]);
                }
            }
        }
    }
}

/// The categories that a write goes to are distinct.
pub proof fn lemma_mirrors_distinct(db: DB, cat: Seq<char>)
    requires
        db.wf(),
    ensures
        forall|j: int| 0 <= j < db.mirrors(cat).len() ==> #[trigger] first_occurrence(db.mirrors(cat), j),
{
    let inv = db.inv_rewrites();
    let ms = db.mirrors(cat);
    let kw = keys_with(inv, cat);
    lemma_keys_with_distinct(inv, cat);
    assert forall|j: int| 0 <= j < ms.len() implies #[trigger] first_occurrence(ms, j) by {
        assert forall|k: int| 0 <= k < j implies ms[k] != ms[j] by {
            assert(ms[j] == kw[j - 1]);
            if k == 0 {
                assert(kw.contains(kw[j - 1]));
                lemma_keys_with_has(inv, cat, kw[j - 1]);
            } else {
                assert(ms[k] == kw[k - 1]);
            }
        }
    }
}

proof fn lemma_first_index(ms: Seq<Seq<char>>, x: Seq<char>)
    requires
        ms.contains(x),
    ensures
        exists|j: int| 0 <= j < ms.len() && ms[j] == x && #[trigger] first_occurrence(ms, j),
    decreases ms.len(),
{
    let t = ms.drop_last();
    if t.contains(x) {
        lemma_first_index(t, x);
        let j = choose|j: int| 0 <= j < t.len() && t[j] == x && #[trigger] first_occurrence(t, j);
        assert(ms[j] == x);
        assert forall|k: int| 0 <= k < j implies ms[k] != ms[j] by {
            assert(t[k] == ms[k]);
            assert(t[j] == ms[j]);
        }
        assert(first_occurrence(ms, j));
    } else {
        let j = ms.len() - 1;
        let w = choose|w: int| 0 <= w < ms.len() && ms[w] == x;
        if w < j {
            assert(t[w] == x);
            assert(t.contains(x));
        }
        assert(ms[j] == x);
        assert forall|k: int| 0 <= k < j implies ms[k] != ms[j] by {
            if ms[k] == ms[j] {
                assert(t[k] == x);
                assert(t.contains(x));
            }
        }
        assert(first_occurrence(ms, j));
    }
}

/// After a rewrite of `new` from an old prefix, a write under the old
/// category (lower-cased) also goes to category `new`: the entry there is
/// the written one, and a change for `new` is broadcast wherever it is a
/// real change or is not to be stored.
pub proof fn lemma_rewrite_mirror(before: DB, mid: DB, after: DB, new: Seq<char>, old_prefix: Seq<char>,
    key: Seq<char>, val: Seq<char>, time: int, ttl: int, no_store: bool, from: u64, r: Seq<Change>)
    requires
        mid.wf(),
        rewrite_post(before, mid, new, old_prefix),
        lower_of(old_prefix).len() > 0,
        split_spec(key).0 == lower_of(old_prefix),
        tell_post(mid, after, key, val, time, ttl, no_store, from, r),
    ensures
        mid.mirrors(split_spec(key).0).contains(new),
        after.lookup(new, split_spec(key).1) == Some(new_entry(time, ttl, val)),
        exists|j: int| 0 <= j < r.len() && (#[trigger] r[j])@.cat == new && r[j]@.sub == split_spec(key).1
            && r[j]@.notify == (no_store || need_update(mid.lookup(new, split_spec(key).1), val)),
{
    let (cat, sub) = split_spec(key);
    let ms = mid.mirrors(cat);
    let inv = mid.inv_rewrites();
    lemma_slot_idx(inv, new);
    let i = slot_idx(inv, new);
    assert(inv[i].key@ == new && inv[i].val@ == cat);
    if new == cat {
        assert(ms[0] == new);
    } else {
        lemma_keys_with_has(inv, cat, new);
        assert(keys_with(inv, cat).contains(new));
        let jj = choose|jj: int| 0 <= jj < keys_with(inv, cat).len() && keys_with(inv, cat)[jj] == new;
        assert(ms[jj + 1] == new);
    }
    assert(ms.contains(new));
    lemma_first_index(ms, new);
    let j = choose|j: int| 0 <= j < ms.len() && ms[j] == new && #[trigger] first_occurrence(ms, j);
    assert(after.lookup(ms[j], sub) == Some(new_entry(time, ttl, val)));
    assert(r[j]@ == tell_change(mid, ms, j, sub, val, time, ttl, no_store, from));
}

/// After a rewrite of `new` with an empty old prefix, writes under any other
/// category no longer go to `new`.
pub proof fn lemma_rewrite_removed(before: DB, mid: DB, new: Seq<char>, old_prefix: Seq<char>, cat: Seq<char>)
    requires
        mid.wf(),
        rewrite_post(before, mid, new, old_prefix),
        lower_of(old_prefix).len() == 0,
        cat != new,
    ensures
        !mid.mirrors(cat).contains(new),
{
    let inv = mid.inv_rewrites();
    lemma_keys_with_has(inv, cat, new);
    lemma_slot_idx(inv, new);
    if keys_with(inv, cat).contains(new) {
        let i = choose|i: int| 0 <= i < inv.len() && (#[trigger] inv[i]).key@ == new && inv[i].val@ == cat && new != cat;
        lemma_slot_at(inv, new, i);
    }
    if mid.mirrors(cat).contains(new) {
        let j = choose|j: int| 0 <= j < mid.mirrors(cat).len() && mid.mirrors(cat)[j] == new;
        if j > 0 {
            assert(keys_with(inv, cat)[j - 1] == new);
        }
    }
}

} // verus!
