//! Key edges turned into note-on and note-off messages, with a reference
//! count per pitch so that a pitch held by several keys sounds once.
use vstd::prelude::*;
use crate::chord::MidiNote;
use crate::event::{DeviceId, KDir, KeyCode, KeyEvent};

verus! {

pub const NOTE_ON_MSG: u8 = 0x90;

pub const NOTE_OFF_MSG: u8 = 0x80;

/// A three-byte MIDI channel message: status, note number, velocity.
#[derive(Debug, Clone, Copy, PartialEq, Eq, Structural)]
pub struct MidiMsg {
    pub status: u8,
    pub n: u8,
    pub vel: u8,
}

/// The last direction seen for one key of one device.
#[derive(Debug, Clone, Copy, PartialEq, Eq, Structural)]
pub struct KeyState {
    pub device: DeviceId,
    pub key: KeyCode,
    pub dir: KDir,
}

pub open spec fn note_on(m: MidiNote) -> MidiMsg {
    MidiMsg { status: NOTE_ON_MSG, n: m.n, vel: m.vel }
}

pub open spec fn note_off(m: MidiNote) -> MidiMsg {
    MidiMsg { status: NOTE_OFF_MSG, n: m.n, vel: m.vel }
}

/// One note's part of a key edge: a press counts the pitch up and sounds it
/// when the count leaves 0; a release counts it down (never below 0) and
/// silences it when the count reaches 0 from 1. Counts saturate at `u64::MAX`.
pub open spec fn note_step(counts: Seq<u64>, m: MidiNote, dir: KDir) -> (Seq<u64>, Seq<MidiMsg>) {
    let c = counts[m.n as int];
    match dir {
        KDir::Down => (
            counts.update(m.n as int, if c == u64::MAX { c } else { (c + 1) as u64 }),
            if c == 0 { seq![note_on(m)] } else { seq![] },
        ),
        KDir::Up => (
            counts.update(m.n as int, if c > 0 { (c - 1) as u64 } else { 0 }),
            if c == 1 { seq![note_off(m)] } else { seq![] },
        ),
    }
}

/// A key edge applied to each note of its chord in order.
pub open spec fn chord_step(counts: Seq<u64>, notes: Seq<MidiNote>, dir: KDir) -> (Seq<u64>, Seq<MidiMsg>)
    decreases notes.len(),
{
    if notes.len() == 0 {
        (counts, seq![])
    } else {
        let prev = chord_step(counts, notes.drop_last(), dir);
        let last = note_step(prev.0, notes.last(), dir);
        (last.0, prev.1 + last.1)
    }
}

/// Every note number lies in 0-127.
pub open spec fn notes_wf(notes: Seq<MidiNote>) -> bool {
    forall|i: int| 0 <= i < notes.len() ==> (#[trigger] notes[i]).n <= 127
}

/// `keys[i]` is the state of key `key` of `device`.
pub open spec fn key_at(keys: Seq<KeyState>, device: DeviceId, key: KeyCode, i: int) -> bool {
    0 <= i < keys.len() && keys[i].device == device && keys[i].key == key
}

/// No key has two states.
pub open spec fn keys_unique(keys: Seq<KeyState>) -> bool {
    forall|i: int, j: int|
        0 <= i < keys.len() && 0 <= j < keys.len() && #[trigger] keys[i].device == #[trigger] keys[j].device
            && keys[i].key == keys[j].key ==> i == j
}

/// Where the state of key `key` of `device` is kept, if anywhere.
pub open spec fn key_index(keys: Seq<KeyState>, device: DeviceId, key: KeyCode) -> Option<int> {
    if exists|i: int| key_at(keys, device, key, i) {
        Some(choose|i: int| key_at(keys, device, key, i))
    } else {
        None
    }
}

/// What one key event does to the counts and key states, and the messages it
/// sends: an untracked key, or a repeat of the last direction, changes nothing.
pub open spec fn process_model(
    counts: Seq<u64>,
    keys: Seq<KeyState>,
    r: KeyEvent,
    notes: Seq<MidiNote>,
) -> (Seq<u64>, Seq<KeyState>, Seq<MidiMsg>) {
    match key_index(keys, r.device, r.key) {
        None => (counts, keys, seq![]),
        Some(i) => if keys[i].dir == r.dir {
            (counts, keys, seq![])
        } else {
            let step = chord_step(counts, notes, r.dir);
            (step.0, keys.update(i, KeyState { device: r.device, key: r.key, dir: r.dir }), step.1)
        },
    }
}

proof fn lemma_key_index(keys: Seq<KeyState>, device: DeviceId, key: KeyCode, i: int)
    requires
        keys_unique(keys),
        key_at(keys, device, key, i),
    ensures
        key_index(keys, device, key) == Some(i),
{
    let j = choose|j: int| key_at(keys, device, key, j);
    assert(keys[i].device == keys[j].device);
}

proof fn lemma_unique_update(keys: Seq<KeyState>, i: int, st: KeyState)
    requires
        keys_unique(keys),
        key_at(keys, st.device, st.key, i),
    ensures
        keys_unique(keys.update(i, st)),
{
    let u = keys.update(i, st);
    assert forall|a: int, b: int|
        0 <= a < u.len() && 0 <= b < u.len() && #[trigger] u[a].device == #[trigger] u[b].device
            && u[a].key == u[b].key implies a == b by {
        assert(keys[a].device == u[a].device && keys[a].key == u[a].key);
        assert(keys[b].device == u[b].device && keys[b].key == u[b].key);
    }
}

proof fn lemma_unique_push(keys: Seq<KeyState>, st: KeyState)
    requires
        keys_unique(keys),
        key_index(keys, st.device, st.key) is None,
    ensures
        keys_unique(keys.push(st)),
{
    let u = keys.push(st);
    assert forall|a: int, b: int|
        0 <= a < u.len() && 0 <= b < u.len() && #[trigger] u[a].device == #[trigger] u[b].device
            && u[a].key == u[b].key implies a == b by {
        if a < keys.len() && b == keys.len() {
            assert(key_at(keys, st.device, st.key, a));
        }
        if b < keys.len() && a == keys.len() {
            assert(key_at(keys, st.device, st.key, b));
        }
        if a < keys.len() && b < keys.len() {
            assert(keys[a].device == keys[b].device);
        }
    }
}

/// Reference counts per pitch and the last direction of each tracked key.
pub struct MidiHandler {
    note_states: Vec<u64>,
    key_states: Vec<KeyState>,
}

impl MidiHandler {
    /// How many held keys ask for each pitch.
    pub closed spec fn counts(&self) -> Seq<u64> {
        self.note_states@
    }

    /// The tracked keys and their last direction.
    pub closed spec fn keys(&self) -> Seq<KeyState> {
        self.key_states@
    }

    pub open spec fn wf(&self) -> bool {
        self.counts().len() == 128 && keys_unique(self.keys())
    }

    /// No pitch held and no key tracked.
    pub fn new() -> (r: MidiHandler)
        ensures
            r.wf(),
            r.counts() == Seq::new(128, |i: int| 0u64),
            r.keys() == Seq::<KeyState>::empty(),
    {
        let mut note_states: Vec<u64> = Vec::new();
        let mut k: usize = 0;
        while k < 128
            invariant
                k <= 128,
                note_states@ == Seq::new(k as nat, |i: int| 0u64),
            decreases 128 - k,
        {
            note_states.push(0);
            k = k + 1;
        }
        MidiHandler { note_states, key_states: Vec::new() }
    }

    fn find_key(&self, device: DeviceId, key: KeyCode) -> (r: Option<usize>)
        requires
            self.wf(),
        ensures
            match r {
                Some(i) => key_index(self.keys(), device, key) == Some(i as int),
                None => key_index(self.keys(), device, key) is None,
            },
    {
        let mut i: usize = 0;
        while i < self.key_states.len()
            invariant
                self.wf(),
                i <= self.key_states@.len(),
                forall|j: int| 0 <= j < i ==> !key_at(self.keys(), device, key, j),
            decreases self.key_states@.len() - i,
        {
            let s = self.key_states[i];
            if s.device == device && s.key == key {
                proof {
                    lemma_key_index(self.keys(), device, key, i as int);
                }
                return Some(i);
            }
            i = i + 1;
        }
        None
    }

    /// The last direction seen for key `key` of `device`, if it is tracked.
    pub fn last_dir(&self, device: DeviceId, key: KeyCode) -> (r: Option<KDir>)
        requires
            self.wf(),
        ensures
            match key_index(self.keys(), device, key) {
                Some(i) => r == Some(self.keys()[i].dir),
                None => r is None,
            },
    {
        match self.find_key(device, key) {
            Some(i) => Some(self.key_states[i].dir),
            None => None,
        }
    }

    /// Starts tracking key `key` of `device` as released.
    pub fn insert_key(&mut self, device: DeviceId, key: KeyCode)
        requires
            old(self).wf(),
        ensures
            final(self).wf(),
            final(self).counts() == old(self).counts(),
            final(self).keys() == match key_index(old(self).keys(), device, key) {
                Some(i) => old(self).keys().update(i, KeyState { device, key, dir: KDir::Up }),
                None => old(self).keys().push(KeyState { device, key, dir: KDir::Up }),
            },
    {
        let st = KeyState { device, key, dir: KDir::Up };
        match self.find_key(device, key) {
            Some(i) => {
                proof {
                    let j = choose|j: int| key_at(self.keys(), device, key, j);
                    lemma_unique_update(self.keys(), i as int, st);
                }
                self.key_states.set(i, st);
            },
            None => {
                proof {
                    lemma_unique_push(self.keys(), st);
                }
                self.key_states.push(st);
            },
        }
    }

    /// Applies one key edge to the counts of each note, in order, and returns
    /// the messages to send.
    fn apply_chord(&mut self, notes: &Vec<MidiNote>, dir: KDir) -> (out: Vec<MidiMsg>)
        requires
            old(self).wf(),
            notes_wf(notes@),
        ensures
            final(self).wf(),
            final(self).keys() == old(self).keys(),
            (final(self).counts(), out@) == chord_step(old(self).counts(), notes@, dir),
    {
        let mut out: Vec<MidiMsg> = Vec::new();
        let mut i: usize = 0;
        while i < notes.len()
            invariant
                self.wf(),
                self.keys() == old(self).keys(),
                i <= notes@.len(),
                notes_wf(notes@),
                (self.counts(), out@) == chord_step(old(self).counts(), notes@.subrange(0, i as int), dir),
            decreases notes@.len() - i,
        {
            let m = notes[i];
            assert(notes@.subrange(0, i + 1).drop_last() =~= notes@.subrange(0, i as int));
            assert(m.n <= 127);
            let p = m.n as usize;
            let c = self.note_states[p];
            match dir {
                KDir::Down => {
                    if c == 0 {
                        out.push(MidiMsg { status: NOTE_ON_MSG, n: m.n, vel: m.vel });
                    }
                    let nc = if c == u64::MAX {
                        c
                    } else {
                        c + 1
                    };
                    self.note_states.set(p, nc);
                },
                KDir::Up => {
                    if c == 1 {
                        out.push(MidiMsg { status: NOTE_OFF_MSG, n: m.n, vel: m.vel });
                    }
                    let nc = if c > 0 {
                        c - 1
                    } else {
                        0
                    };
                    self.note_states.set(p, nc);
                },
            }
            proof {
                let prev = chord_step(old(self).counts(), notes@.subrange(0, i as int), dir);
                let last = note_step(prev.0, m, dir);
                assert(out@ =~= prev.1 + last.1);
            }
            i = i + 1;
        }
        assert(notes@.subrange(0, notes@.len() as int) =~= notes@);
        out
    }

    /// Presses `notes` regardless of any key state: each pitch is counted up
    /// and sounds when its count leaves 0.
    pub fn play(&mut self, notes: &Vec<MidiNote>) -> (out: Vec<MidiMsg>)
        requires
            old(self).wf(),
            notes_wf(notes@),
        ensures
            final(self).wf(),
            final(self).keys() == old(self).keys(),
            (final(self).counts(), out@) == chord_step(old(self).counts(), notes@, KDir::Down),
    {
        self.apply_chord(notes, KDir::Down)
    }

    /// Releases `notes` regardless of any key state: each pitch is counted
    /// down and silenced when its count reaches 0.
    pub fn release(&mut self, notes: &Vec<MidiNote>) -> (out: Vec<MidiMsg>)
        requires
            old(self).wf(),
            notes_wf(notes@),
        ensures
            final(self).wf(),
            final(self).keys() == old(self).keys(),
            (final(self).counts(), out@) == chord_step(old(self).counts(), notes@, KDir::Up),
    {
        self.apply_chord(notes, KDir::Up)
    }

    /// Handles one key event of a tracked key whose chord is `notes`: a repeat
    /// of the key's last direction, or an untracked key, is dropped; a genuine
    /// edge is recorded and applied to the count of each note.
    pub fn process_msg(&mut self, r: KeyEvent, notes: &Vec<MidiNote>) -> (out: Vec<MidiMsg>)
        requires
            old(self).wf(),
            notes_wf(notes@),
        ensures
            final(self).wf(),
            (final(self).counts(), final(self).keys(), out@) == process_model(
                old(self).counts(),
                old(self).keys(),
                r,
                notes@,
            ),
    {
        match self.find_key(r.device, r.key) {
            None => Vec::new(),
            Some(i) => {
                if self.key_states[i].dir == r.dir {
                    return Vec::new();
                }
                let st = KeyState { device: r.device, key: r.key, dir: r.dir };
                proof {
                    let j = choose|j: int| key_at(self.keys(), r.device, r.key, j);
                    lemma_unique_update(self.keys(), i as int, st);
                }
                self.key_states.set(i, st);
                self.apply_chord(notes, r.dir)
            },
        }
    }
}

/// A key event of the tracked key at `i` moves it to the event's direction.
proof fn lemma_process_keys(counts: Seq<u64>, keys: Seq<KeyState>, r: KeyEvent, notes: Seq<MidiNote>, i: int)
    requires
        keys_unique(keys),
        key_at(keys, r.device, r.key, i),
    ensures
        keys_unique(process_model(counts, keys, r, notes).1),
        key_index(process_model(counts, keys, r, notes).1, r.device, r.key) == Some(i),
        process_model(counts, keys, r, notes).1[i].dir == r.dir,
        forall|j: int| 0 <= j < keys.len() && j != i ==> #[trigger] process_model(counts, keys, r, notes).1[j] == keys[j],
        process_model(counts, keys, r, notes).1.len() == keys.len(),
{
    lemma_key_index(keys, r.device, r.key, i);
    let st = KeyState { device: r.device, key: r.key, dir: r.dir };
    if keys[i].dir != r.dir {
        lemma_unique_update(keys, i, st);
        lemma_key_index(keys.update(i, st), r.device, r.key, i);
    }
}

proof fn lemma_single_note(counts: Seq<u64>, m: MidiNote, dir: KDir)
    ensures
        chord_step(counts, seq![m], dir) == note_step(counts, m, dir),
{
    assert(seq![m].drop_last() =~= Seq::<MidiNote>::empty());
    let prev = chord_step(counts, Seq::<MidiNote>::empty(), dir);
    assert(prev == (counts, Seq::<MidiMsg>::empty()));
    assert(seq![m].last() == m);
    assert(prev.1 + note_step(counts, m, dir).1 =~= note_step(counts, m, dir).1);
}

/// A second press of a key, with no release in between, sends nothing and
/// changes nothing.
pub proof fn lemma_repeated_press_dropped(
    counts: Seq<u64>,
    keys: Seq<KeyState>,
    r: KeyEvent,
    notes: Seq<MidiNote>,
)
    requires
        keys_unique(keys),
        r.dir == KDir::Down,
    ensures
        ({
            let first = process_model(counts, keys, r, notes);
            let second = process_model(first.0, first.1, r, notes);
            second.2.len() == 0 && second.0 == first.0 && second.1 == first.1
        }),
{
    if let Some(i) = key_index(keys, r.device, r.key) {
        lemma_process_keys(counts, keys, r, notes, i);
    }
}

/// Two tracked, released keys whose chords are one note each, of the same
/// pitch, on a silent pitch: pressing both sends one note-on, releasing the
/// first sends nothing, and releasing the second sends one note-off.
pub proof fn lemma_shared_pitch(
    counts: Seq<u64>,
    keys: Seq<KeyState>,
    a: KeyEvent,
    b: KeyEvent,
    ma: MidiNote,
    mb: MidiNote,
)
    requires
        keys_unique(keys),
        counts.len() == 128,
        ma.n == mb.n,
        ma.n <= 127,
        counts[ma.n as int] == 0,
        a.dir == KDir::Down,
        b.dir == KDir::Down,
        a.device != b.device || a.key != b.key,
        key_index(keys, a.device, a.key) matches Some(i) && keys[i].dir == KDir::Up,
        key_index(keys, b.device, b.key) matches Some(j) && keys[j].dir == KDir::Up,
    ensures
        ({
            let ra = KeyEvent { dir: KDir::Up, ..a };
            let rb = KeyEvent { dir: KDir::Up, ..b };
            let s1 = process_model(counts, keys, a, seq![ma]);
            let s2 = process_model(s1.0, s1.1, b, seq![mb]);
            let s3 = process_model(s2.0, s2.1, ra, seq![ma]);
            let s4 = process_model(s3.0, s3.1, rb, seq![mb]);
            &&& s1.2 == seq![note_on(ma)]
            &&& s2.2.len() == 0
            &&& s3.2.len() == 0
            &&& s4.2 == seq![note_off(mb)]
        }),
{
    let i = key_index(keys, a.device, a.key)->Some_0;
    let j = key_index(keys, b.device, b.key)->Some_0;
    let ra = KeyEvent { dir: KDir::Up, ..a };
    let rb = KeyEvent { dir: KDir::Up, ..b };
    let p = ma.n as int;
    assert(key_at(keys, a.device, a.key, i));
    assert(key_at(keys, b.device, b.key, j));
    assert(i != j);
    lemma_process_keys(counts, keys, a, seq![ma], i);
    lemma_single_note(counts, ma, KDir::Down);
    let s1 = process_model(counts, keys, a, seq![ma]);
    assert(s1.0[p] == 1);
    assert(key_at(s1.1, b.device, b.key, j));
    lemma_process_keys(s1.0, s1.1, b, seq![mb], j);
    lemma_single_note(s1.0, mb, KDir::Down);
    let s2 = process_model(s1.0, s1.1, b, seq![mb]);
    assert(s2.0[p] == 2);
    assert(key_at(s2.1, a.device, a.key, i));
    lemma_process_keys(s2.0, s2.1, ra, seq![ma], i);
    lemma_single_note(s2.0, ma, KDir::Up);
    let s3 = process_model(s2.0, s2.1, ra, seq![ma]);
    assert(s3.0[p] == 1);
    assert(key_at(s3.1, b.device, b.key, j));
    lemma_process_keys(s3.0, s3.1, rb, seq![mb], j);
    lemma_single_note(s3.0, mb, KDir::Up);
}

} // verus!
