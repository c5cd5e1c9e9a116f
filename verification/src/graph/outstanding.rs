//! The fixups that wait for the commit they amend.
use vstd::prelude::*;
use crate::git::bytes::{bytes_less, lex_less, same_bytes};
use crate::git::oid::Oid;

verus! {

/// Summaries, each with the fixups that name it, in the order they were met.
pub type Entries = Seq<(Seq<u8>, Seq<Oid>)>;

/// The first place from `from` on whose summary does not come before `key`.
pub open spec fn slot_from(entries: Entries, key: Seq<u8>, from: int) -> int
    decreases entries.len() - from,
{
    if from < 0 || from >= entries.len() {
        entries.len() as int
    } else if lex_less(entries[from].0, key) {
        slot_from(entries, key, from + 1)
    } else {
        from
    }
}

/// The place where `key` stands or would stand.
pub open spec fn slot_of(entries: Entries, key: Seq<u8>) -> int {
    slot_from(entries, key, 0)
}

/// Whether `entries` have an entry for `key`.
pub open spec fn holds_key(entries: Entries, key: Seq<u8>) -> bool {
    slot_of(entries, key) < entries.len() && entries[slot_of(entries, key)].0 == key
}

/// `entries` with the fixup `id` noted for the summary `key`.
pub open spec fn recorded(entries: Entries, key: Seq<u8>, id: Oid) -> Entries {
    let i = slot_of(entries, key);
    if holds_key(entries, key) {
        entries.update(i, (key, entries[i].1.push(id)))
    } else {
        entries.insert(i, (key, seq![id]))
    }
}

/// The fixups noted for the summary `key`.
pub open spec fn found(entries: Entries, key: Seq<u8>) -> Option<Seq<Oid>> {
    if holds_key(entries, key) {
        Some(entries[slot_of(entries, key)].1)
    } else {
        None
    }
}

/// `entries` without the summary `key`.
pub open spec fn without_key(entries: Entries, key: Seq<u8>) -> Entries {
    if holds_key(entries, key) {
        entries.remove(slot_of(entries, key))
    } else {
        entries
    }
}

/// The lists of fixups, in the order of `entries`.
pub open spec fn values(entries: Entries) -> Seq<Seq<Oid>> {
    entries.map_values(|e: (Seq<u8>, Seq<Oid>)| e.1)
}

/// The place of a summary lies among the entries or directly behind them.
pub proof fn lemma_slot_bounds(entries: Entries, key: Seq<u8>, from: int)
    requires
        0 <= from <= entries.len(),
    ensures
        from <= slot_from(entries, key, from) <= entries.len(),
    decreases entries.len() - from,
{
    if from < entries.len() && lex_less(entries[from].0, key) {
        lemma_slot_bounds(entries, key, from + 1);
    }
}

/// The views of a list of lists of ids.
pub open spec fn id_lists(lists: Seq<Vec<Oid>>) -> Seq<Seq<Oid>> {
    lists.map_values(|v: Vec<Oid>| v@)
}

/// Fixups by the summary of the commit they amend, the summaries in the
/// order of byte strings.
pub struct Outstanding {
    entries: Vec<(Vec<u8>, Vec<Oid>)>,
}

impl View for Outstanding {
    type V = Entries;

    closed spec fn view(&self) -> Entries {
        self.entries@.map_values(|e: (Vec<u8>, Vec<Oid>)| (e.0@, e.1@))
    }
}

impl Outstanding {
    /// No fixup waits.
    pub fn new() -> (r: Outstanding)
        ensures
            r@ == Entries::empty(),
    {
        let r = Outstanding { entries: Vec::new() };
        assert(r@ =~= Entries::empty());
        r
    }

    /// Whether no fixup waits.
    pub fn is_empty(&self) -> (r: bool)
        ensures
            r == (self@.len() == 0),
    {
        self.entries.len() == 0
    }

    fn slot(&self, key: &Vec<u8>) -> (i: usize)
        ensures
            i == slot_of(self@, key@),
            i <= self@.len(),
            self@.len() == self.entries@.len(),
    {
        let mut i: usize = 0;
        while i < self.entries.len() && bytes_less(&self.entries[i].0, key)
            invariant
                i <= self.entries.len(),
                slot_from(self@, key@, i as int) == slot_of(self@, key@),
            decreases self.entries.len() - i,
        {
            i += 1;
        }
        i
    }

    /// Notes the fixup `id` for the summary `key`.
    pub fn record(&mut self, key: Vec<u8>, id: Oid)
        ensures
            final(self)@ == recorded(old(self)@, key@, id),
    {
        let i = self.slot(&key);
        if i < self.entries.len() && same_bytes(&self.entries[i].0, &key) {
            self.entries[i].1.push(id);
            assert(self@ =~= recorded(old(self)@, key@, id));
        } else {
            let mut ids: Vec<Oid> = Vec::new();
            ids.push(id);
            assert(ids@ =~= seq![id]);
            self.entries.insert(i, (key, ids));
            assert(self@ =~= recorded(old(self)@, key@, id));
        }
    }

    /// The fixups noted for the summary `key`, if there are any.
    pub fn peek(&self, key: &Vec<u8>) -> (r: Option<Vec<Oid>>)
        ensures
            match r {
                Some(ids) => found(self@, key@) == Some(ids@),
                None => found(self@, key@) is None,
            },
    {
        let i = self.slot(key);
        if i < self.entries.len() && same_bytes(&self.entries[i].0, key) {
            Some(self.entries[i].1.clone())
        } else {
            None
        }
    }

    /// Takes out the fixups noted for the summary `key`, if there are any.
    pub fn take(&mut self, key: &Vec<u8>) -> (r: Option<Vec<Oid>>)
        ensures
            final(self)@ == without_key(old(self)@, key@),
            match r {
                Some(ids) => found(old(self)@, key@) == Some(ids@),
                None => found(old(self)@, key@) is None,
            },
    {
        let i = self.slot(key);
        if i < self.entries.len() && same_bytes(&self.entries[i].0, key) {
            let entry = self.entries.remove(i);
            assert(self@ =~= without_key(old(self)@, key@));
            Some(entry.1)
        } else {
            None
        }
    }

    /// The lists of fixups, in the order of their summaries.
    pub fn into_values(self) -> (r: Vec<Vec<Oid>>)
        ensures
            id_lists(r@) == values(self@),
    {
        let mut out: Vec<Vec<Oid>> = Vec::new();
        let mut i: usize = 0;
        while i < self.entries.len()
            invariant
                i <= self.entries.len(),
                id_lists(out@) == values(self@).take(i as int),
            decreases self.entries.len() - i,
        {
            let ghost before = out@;
            out.push(self.entries[i].1.clone());
            assert(values(self@)[i as int] == self.entries@[i as int].1@);
            assert(id_lists(out@) =~= id_lists(before).push(self.entries@[i as int].1@));
            assert(id_lists(out@) =~= values(self@).take(i as int + 1));
            i += 1;
        }
        assert(values(self@).take(self.entries.len() as int) =~= values(self@));
        out
    }
}

} // verus!
