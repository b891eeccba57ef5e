//! The chords of one keymap file, keyed by key code.
use vstd::prelude::*;
use crate::chord::MidiNote;
use crate::event::KeyCode;
use crate::midi::notes_wf;

verus! {

/// One key of a keymap file: its chord, or `None` for a toggle key.
#[derive(Debug, Clone)]
pub struct SlotEntry {
    pub key: KeyCode,
    pub notes: Option<Vec<MidiNote>>,
}

/// The chord view of an entry.
pub open spec fn entry_notes(e: SlotEntry) -> Option<Seq<MidiNote>> {
    match e.notes {
        Some(v) => Some(v@),
        None => None,
    }
}

/// What `key` maps to in `es`: the last entry of that key wins.
pub open spec fn slot_lookup(es: Seq<SlotEntry>, key: KeyCode) -> Option<Option<Seq<MidiNote>>>
    decreases es.len(),
{
    if es.len() == 0 {
        None
    } else if es.last().key == key {
        Some(entry_notes(es.last()))
    } else {
        slot_lookup(es.drop_last(), key)
    }
}

/// The keys and chords read from one keymap file.
pub struct SlotMap {
    entries: Vec<SlotEntry>,
}

impl SlotMap {
    pub closed spec fn view(&self) -> Seq<SlotEntry> {
        self.entries@
    }

    /// Every chord holds only MIDI note numbers.
    pub open spec fn wf(&self) -> bool {
        forall|i: int|
            0 <= i < self.view().len() ==> ((#[trigger] entry_notes(self.view()[i])) matches Some(n)
                ==> notes_wf(n))
    }

    pub fn new() -> (r: SlotMap)
        ensures
            r.wf(),
            r.view() == Seq::<SlotEntry>::empty(),
    {
        SlotMap { entries: Vec::new() }
    }

    /// Maps `key` to `notes`, replacing what it mapped to before.
    pub fn insert(&mut self, key: KeyCode, notes: Option<Vec<MidiNote>>)
        requires
            old(self).wf(),
            notes matches Some(n) ==> notes_wf(n@),
        ensures
            final(self).wf(),
            final(self).view() == old(self).view().push(SlotEntry { key, notes }),
    {
        self.entries.push(SlotEntry { key, notes });
    }

    pub fn len(&self) -> (r: usize)
        ensures
            r == self.view().len(),
    {
        self.entries.len()
    }

    /// The key code of the `i`-th entry.
    pub fn key_at(&self, i: usize) -> (r: KeyCode)
        requires
            i < self.view().len(),
        ensures
            r == self.view()[i as int].key,
    {
        self.entries[i].key
    }

    /// What `key` maps to.
    pub fn get(&self, key: KeyCode) -> (r: Option<&Option<Vec<MidiNote>>>)
        ensures
            match r {
                Some(n) => slot_lookup(self.view(), key) == Some(
                    match n {
                        Some(v) => Some(v@),
                        None => None::<Seq<MidiNote>>,
                    },
                ) && (self.wf() ==> (n matches Some(v) ==> notes_wf(v@))),
                None => slot_lookup(self.view(), key) is None,
            },
    {
        let mut i: usize = self.entries.len();
        assert(self.view().subrange(0, i as int) =~= self.view());
        while i > 0
            invariant
                i <= self.entries@.len(),
                slot_lookup(self.view(), key) == slot_lookup(self.view().subrange(0, i as int), key),
            decreases i,
        {
            let ghost pre = self.view().subrange(0, i as int);
            assert(pre.drop_last() =~= self.view().subrange(0, i - 1));
            if self.entries[i - 1].key == key {
                proof {
                    assert(entry_notes(self.view()[i - 1]) == entry_notes(pre.last()));
                }
                return Some(&self.entries[i - 1].notes);
            }
            i = i - 1;
        }
        None
    }
}

} // verus!
