//! The single owner of all event-processing state: it learns which device
//! is which keymap slot, plays mapped keys, and decides which intercepted
//! keys to swallow.
use vstd::prelude::*;
use crate::chord::MidiNote;
use crate::event::{DeviceId, KDir, KeyCode, KeyEvent};
use crate::event_log::{pushed, pushed_all, scanned, EventLog};
use crate::keymap::{slot_lookup, SlotEntry, SlotMap};
use crate::midi::{key_at, key_index, keys_unique, notes_wf, process_model, KeyState, MidiHandler, MidiMsg};

verus! {

/// Whether intercepted keys are swallowed system-wide.
#[derive(Debug, Clone, Copy, PartialEq, Eq, Structural)]
pub enum SuppressionMode {
    /// Until every slot is bound: everything is swallowed.
    KillAll,
    /// Turned off by a toggle key: nothing is swallowed or played.
    ProcessNone,
    /// Normal play: mapped keys are swallowed and played.
    PassThrough,
}

/// A toggle key's press switches between playing and not playing.
pub open spec fn toggled(mode: SuppressionMode) -> SuppressionMode {
    match mode {
        SuppressionMode::PassThrough => SuppressionMode::ProcessNone,
        SuppressionMode::ProcessNone => SuppressionMode::PassThrough,
        SuppressionMode::KillAll => SuppressionMode::KillAll,
    }
}

/// The devices bound so far after one more event: an unbound device's press
/// takes the lowest free slot; anything else, or a full binding, changes nothing.
pub open spec fn bind_step(devs: Seq<DeviceId>, slots: nat, r: KeyEvent) -> Seq<DeviceId> {
    if devs.len() < slots && r.dir == KDir::Down && !devs.contains(r.device) {
        devs.push(r.device)
    } else {
        devs
    }
}

/// No device is bound to two slots.
pub open spec fn distinct(devs: Seq<DeviceId>) -> bool {
    forall|i: int, j: int| 0 <= i < devs.len() && 0 <= j < devs.len() && #[trigger] devs[i] == #[trigger] devs[j] ==> i == j
}

/// The slot bound to `device`, if any.
pub open spec fn slot_of(devs: Seq<DeviceId>, device: DeviceId) -> Option<int> {
    if devs.contains(device) {
        Some(choose|s: int| 0 <= s < devs.len() && devs[s] == device)
    } else {
        None
    }
}

/// What key `key` of `device` maps to under the binding `devs`: the chord,
/// `None` for a toggle key; nothing for a key or device no keymap names.
pub open spec fn bound_lookup(slots: Seq<Seq<SlotEntry>>, devs: Seq<DeviceId>, device: DeviceId, key: KeyCode) -> Option<Option<Seq<MidiNote>>> {
    match slot_of(devs, device) {
        Some(s) => slot_lookup(slots[s], key),
        None => None,
    }
}

/// Whether an intercepted key is swallowed, given what its correlated device
/// event maps to (`None` when the event could not be correlated or maps to nothing).
pub open spec fn kill_verdict(mode: SuppressionMode, found: Option<Option<Seq<MidiNote>>>) -> bool {
    if found == Some(None::<Seq<MidiNote>>) {
        true
    } else {
        match mode {
            SuppressionMode::KillAll => true,
            SuppressionMode::ProcessNone => false,
            SuppressionMode::PassThrough => found is Some,
        }
    }
}

/// Key `key` of `device` is tracked by the dispatch engine, as released.
pub open spec fn tracked_up(keys: Seq<KeyState>, device: DeviceId, key: KeyCode) -> bool {
    exists|j: int| key_at(keys, device, key, j) && keys[j].dir == KDir::Up
}

/// Every key of every bound slot is tracked as released.
pub open spec fn all_tracked_up(keys: Seq<KeyState>, slots: Seq<Seq<SlotEntry>>, devs: Seq<DeviceId>) -> bool {
    forall|s: int, i: int|
        0 <= s < devs.len() && 0 <= s < slots.len() && 0 <= i < slots[s].len() ==> tracked_up(
            keys,
            devs[s],
            #[trigger] slots[s][i].key,
        )
}

proof fn lemma_insert_keeps(keys: Seq<KeyState>, d: DeviceId, k: KeyCode, device: DeviceId, key: KeyCode)
    requires
        keys_unique(keys),
        tracked_up(keys, device, key),
    ensures
        tracked_up(
            match key_index(keys, d, k) {
                Some(i) => keys.update(i, KeyState { device: d, key: k, dir: KDir::Up }),
                None => keys.push(KeyState { device: d, key: k, dir: KDir::Up }),
            },
            device,
            key,
        ),
{
    let j = choose|j: int| key_at(keys, device, key, j) && keys[j].dir == KDir::Up;
    let st = KeyState { device: d, key: k, dir: KDir::Up };
    match key_index(keys, d, k) {
        Some(i) => {
            assert(key_at(keys.update(i, st), device, key, j));
        },
        None => {
            assert(key_at(keys.push(st), device, key, j));
        },
    }
}

proof fn lemma_insert_tracks(keys: Seq<KeyState>, d: DeviceId, k: KeyCode)
    requires
        keys_unique(keys),
    ensures
        tracked_up(
            match key_index(keys, d, k) {
                Some(i) => keys.update(i, KeyState { device: d, key: k, dir: KDir::Up }),
                None => keys.push(KeyState { device: d, key: k, dir: KDir::Up }),
            },
            d,
            k,
        ),
{
    let st = KeyState { device: d, key: k, dir: KDir::Up };
    match key_index(keys, d, k) {
        Some(i) => {
            assert(key_at(keys.update(i, st), d, k, i));
        },
        None => {
            assert(key_at(keys.push(st), d, k, keys.len() as int));
        },
    }
}

/// `r` presses a tracked key that was released.
pub open spec fn is_press_edge(keys: Seq<KeyState>, r: KeyEvent) -> bool {
    r.dir == KDir::Down && (key_index(keys, r.device, r.key) matches Some(i) && keys[i].dir
        == KDir::Up)
}

/// All state of the event-processing loop.
pub struct Engine {
    log: EventLog,
    slots: Vec<SlotMap>,
    devs: Vec<DeviceId>,
    mode: SuppressionMode,
    midi: MidiHandler,
}

impl Engine {
    pub closed spec fn log(&self) -> Seq<Option<KeyEvent>> {
        self.log.view()
    }

    pub closed spec fn log_capacity(&self) -> nat {
        self.log.capacity()
    }

    /// The keymap of each slot, in slot order.
    pub closed spec fn slot_views(&self) -> Seq<Seq<SlotEntry>> {
        Seq::new(self.slots@.len(), |s: int| self.slots@[s].view())
    }

    /// The device bound to each slot so far, in slot order.
    pub closed spec fn devices(&self) -> Seq<DeviceId> {
        self.devs@
    }

    pub closed spec fn mode(&self) -> SuppressionMode {
        self.mode
    }

    pub closed spec fn counts(&self) -> Seq<u64> {
        self.midi.counts()
    }

    pub closed spec fn midi_keys(&self) -> Seq<KeyState> {
        self.midi.keys()
    }

    /// Every slot is bound to a device.
    pub open spec fn is_bound(&self) -> bool {
        self.devices().len() == self.slot_views().len()
    }

    pub closed spec fn wf(&self) -> bool {
        &&& self.wf_state()
        &&& (self.mode == SuppressionMode::KillAll) == (self.devs@.len() < self.slots@.len())
    }

    closed spec fn wf_state(&self) -> bool {
        &&& self.log.wf()
        &&& self.midi.wf()
        &&& self.slots@.len() > 0
        &&& forall|s: int| 0 <= s < self.slots@.len() ==> (#[trigger] self.slots@[s]).wf()
        &&& self.devs@.len() <= self.slots@.len()
        &&& distinct(self.devs@)
    }

    /// What key `key` of `device` maps to under the current binding.
    pub open spec fn lookup_spec(&self, device: DeviceId, key: KeyCode) -> Option<Option<Seq<MidiNote>>> {
        bound_lookup(self.slot_views(), self.devices(), device, key)
    }

    /// Starts learning, with every intercepted key swallowed, an empty event
    /// log of `log_size` slots and no note held.
    pub fn new(slots: Vec<SlotMap>, log_size: usize) -> (r: Engine)
        requires
            slots@.len() > 0,
            log_size > 0,
            forall|s: int| 0 <= s < slots@.len() ==> (#[trigger] slots@[s]).wf(),
        ensures
            r.wf(),
            r.slot_views() == Seq::new(slots@.len(), |s: int| slots@[s].view()),
            r.devices() == Seq::<DeviceId>::empty(),
            r.mode() == SuppressionMode::KillAll,
            r.log() == Seq::new(log_size as nat, |i: int| None::<KeyEvent>),
            r.counts() == Seq::new(128, |i: int| 0u64),
            r.midi_keys() == Seq::<KeyState>::empty(),
    {
        Engine {
            log: EventLog::new(log_size),
            slots,
            devs: Vec::new(),
            mode: SuppressionMode::KillAll,
            midi: MidiHandler::new(),
        }
    }

    pub fn mode_now(&self) -> (r: SuppressionMode)
        ensures
            r == self.mode(),
    {
        self.mode
    }

    /// The device bound to slot `slot`, if any yet.
    pub fn bound_device(&self, slot: usize) -> (r: Option<DeviceId>)
        ensures
            match r {
                Some(d) => slot < self.devices().len() && d == self.devices()[slot as int],
                None => slot >= self.devices().len(),
            },
    {
        if slot < self.devs.len() {
            Some(self.devs[slot])
        } else {
            None
        }
    }

    /// Whether every slot is bound.
    pub fn is_full(&self) -> (r: bool)
        ensures
            r == self.is_bound(),
    {
        self.devs.len() == self.slots.len()
    }

    fn bound_slot(&self, device: DeviceId) -> (r: Option<usize>)
        requires
            self.wf(),
        ensures
            match r {
                Some(s) => slot_of(self.devices(), device) == Some(s as int) && s < self.devices().len(),
                None => slot_of(self.devices(), device) is None,
            },
    {
        let mut s: usize = 0;
        while s < self.devs.len()
            invariant
                self.wf(),
                s <= self.devs@.len(),
                forall|j: int| 0 <= j < s ==> self.devs@[j] != device,
            decreases self.devs@.len() - s,
        {
            if self.devs[s] == device {
                proof {
                    assert(self.devs@.contains(device));
                    let c = choose|c: int| 0 <= c < self.devs@.len() && self.devs@[c] == device;
                    assert(self.devs@[c] == self.devs@[s as int]);
                }
                return Some(s);
            }
            s = s + 1;
        }
        None
    }

    /// What key `key` of `device` maps to under the current binding.
    pub fn lookup(&self, device: DeviceId, key: KeyCode) -> (r: Option<&Option<Vec<MidiNote>>>)
        requires
            self.wf(),
        ensures
            match r {
                Some(n) => self.lookup_spec(device, key) == Some(
                    match n {
                        Some(v) => Some(v@),
                        None => None::<Seq<MidiNote>>,
                    },
                ) && (n matches Some(v) ==> notes_wf(v@)),
                None => self.lookup_spec(device, key) is None,
            },
    {
        match self.bound_slot(device) {
            Some(s) => {
                assert(self.slot_views()[s as int] == self.slots@[s as int].view());
                self.slots[s].get(key)
            },
            None => None,
        }
    }

    /// Whether an intercepted key is swallowed, given the device event it was
    /// correlated to, if any.
    pub fn should_kill(&self, rec: Option<KeyEvent>) -> (r: bool)
        requires
            self.wf(),
        ensures
            r == kill_verdict(
                self.mode(),
                match rec {
                    Some(e) => self.lookup_spec(e.device, e.key),
                    None => None,
                },
            ),
    {
        let found = match rec {
            Some(e) => self.lookup(e.device, e.key),
            None => None,
        };
        if let Some(n) = found {
            if n.is_none() {
                return true;
            }
        }
        match self.mode {
            SuppressionMode::KillAll => true,
            SuppressionMode::ProcessNone => false,
            SuppressionMode::PassThrough => found.is_some(),
        }
    }

    /// Tracks every key of every slot, as released, and leaves `KillAll`.
    fn complete_binding(&mut self)
        requires
            old(self).wf_state(),
            old(self).devs@.len() == old(self).slots@.len(),
            old(self).mode == SuppressionMode::KillAll,
        ensures
            final(self).wf(),
            final(self).mode == SuppressionMode::PassThrough,
            final(self).log == old(self).log,
            final(self).slots == old(self).slots,
            final(self).devs == old(self).devs,
            final(self).counts() == old(self).counts(),
            all_tracked_up(final(self).midi_keys(), final(self).slot_views(), final(self).devices()),
    {
        let n = self.slots.len();
        let mut s: usize = 0;
        while s < n
            invariant
                n == self.slots@.len(),
                n == self.devs@.len(),
                s <= n,
                self.midi.wf(),
                self.log == old(self).log,
                self.slots == old(self).slots,
                self.devs == old(self).devs,
                self.mode == old(self).mode,
                self.midi.counts() == old(self).midi.counts(),
                forall|t: int, i: int|
                    0 <= t < s && 0 <= i < self.slots@[t].view().len() ==> tracked_up(
                        self.midi.keys(),
                        self.devs@[t],
                        #[trigger] self.slots@[t].view()[i].key,
                    ),
            decreases n - s,
        {
            let m = self.slots[s].len();
            let mut i: usize = 0;
            while i < m
                invariant
                    n == self.slots@.len(),
                    n == self.devs@.len(),
                    s < n,
                    i <= m,
                    m == self.slots@[s as int].view().len(),
                    self.midi.wf(),
                    self.log == old(self).log,
                    self.slots == old(self).slots,
                    self.devs == old(self).devs,
                    self.mode == old(self).mode,
                    self.midi.counts() == old(self).midi.counts(),
                    forall|t: int, j: int|
                        0 <= t < s && 0 <= j < self.slots@[t].view().len() ==> tracked_up(
                            self.midi.keys(),
                            self.devs@[t],
                            #[trigger] self.slots@[t].view()[j].key,
                        ),
                    forall|j: int| 0 <= j < i ==> tracked_up(
                        self.midi.keys(),
                        self.devs@[s as int],
                        #[trigger] self.slots@[s as int].view()[j].key,
                    ),
                decreases m - i,
            {
                let d = self.devs[s];
                let k = self.slots[s].key_at(i);
                let ghost before = self.midi.keys();
                self.midi.insert_key(d, k);
                proof {
                    lemma_insert_tracks(before, d, k);
                    assert forall|t: int, j: int|
                        0 <= t < s && 0 <= j < self.slots@[t].view().len() implies tracked_up(
                            self.midi.keys(),
                            self.devs@[t],
                            #[trigger] self.slots@[t].view()[j].key,
                        ) by {
                        lemma_insert_keeps(before, d, k, self.devs@[t], self.slots@[t].view()[j].key);
                    }
                    assert forall|j: int| 0 <= j < i + 1 implies tracked_up(
                        self.midi.keys(),
                        self.devs@[s as int],
                        #[trigger] self.slots@[s as int].view()[j].key,
                    ) by {
                        if j < i {
                            lemma_insert_keeps(before, d, k, self.devs@[s as int], self.slots@[s as int].view()[j].key);
                        }
                    }
                }
                i = i + 1;
            }
            s = s + 1;
        }
        self.mode = SuppressionMode::PassThrough;
        proof {
            assert forall|t: int, i: int|
                0 <= t < self.devices().len() && 0 <= t < self.slot_views().len() && 0 <= i < self.slot_views()[t].len()
                    implies tracked_up(self.midi_keys(), self.devices()[t], #[trigger] self.slot_views()[t][i].key) by {
                assert(self.slot_views()[t] == self.slots@[t].view());
                assert(self.slots@[t].view()[i].key == self.slot_views()[t][i].key);
            }
        }
    }

    /// Handles one event of the per-device stream: logs it, then either uses
    /// it to learn the binding or, once bound, plays its chord or handles its
    /// toggle key. Returns the MIDI messages to send.
    pub fn on_device_event(&mut self, r: KeyEvent) -> (out: Vec<MidiMsg>)
        requires
            old(self).wf(),
        ensures
            final(self).wf(),
            final(self).log() == pushed(old(self).log(), r),
            final(self).log_capacity() == old(self).log_capacity(),
            final(self).slot_views() == old(self).slot_views(),
            final(self).devices() == bind_step(old(self).devices(), old(self).slot_views().len(), r),
            !old(self).is_bound() ==> {
                &&& out@.len() == 0
                &&& final(self).counts() == old(self).counts()
                &&& final(self).is_bound() ==> final(self).mode() == SuppressionMode::PassThrough
                    && all_tracked_up(final(self).midi_keys(), final(self).slot_views(), final(self).devices())
                &&& !final(self).is_bound() ==> final(self).mode() == SuppressionMode::KillAll
                    && final(self).midi_keys() == old(self).midi_keys()
            },
            old(self).is_bound() ==> match old(self).lookup_spec(r.device, r.key) {
                None => out@.len() == 0 && final(self).mode() == old(self).mode()
                    && final(self).counts() == old(self).counts()
                    && final(self).midi_keys() == old(self).midi_keys(),
                Some(Some(notes)) => final(self).mode() == old(self).mode() && if old(self).mode()
                    == SuppressionMode::PassThrough {
                    (final(self).counts(), final(self).midi_keys(), out@) == process_model(
                        old(self).counts(),
                        old(self).midi_keys(),
                        r,
                        notes,
                    )
                } else {
                    out@.len() == 0 && final(self).counts() == old(self).counts()
                        && final(self).midi_keys() == old(self).midi_keys()
                },
                Some(None) => {
                    &&& out@.len() == 0
                    &&& final(self).counts() == old(self).counts()
                    &&& final(self).midi_keys() == process_model(
                        old(self).counts(),
                        old(self).midi_keys(),
                        r,
                        Seq::empty(),
                    ).1
                    &&& final(self).mode() == if is_press_edge(old(self).midi_keys(), r) {
                        toggled(old(self).mode())
                    } else {
                        old(self).mode()
                    }
                },
            },
    {
        self.log.push(r);
        if self.devs.len() < self.slots.len() {
            if r.dir == KDir::Down && self.bound_slot(r.device).is_none() {
                self.devs.push(r.device);
                proof {
                    assert forall|i: int, j: int|
                        0 <= i < self.devs@.len() && 0 <= j < self.devs@.len() && #[trigger] self.devs@[i]
                            == #[trigger] self.devs@[j] implies i == j by {
                        if i < self.devs@.len() - 1 && j == self.devs@.len() - 1 {
                            assert(old(self).devs@.contains(r.device));
                        }
                        if j < self.devs@.len() - 1 && i == self.devs@.len() - 1 {
                            assert(old(self).devs@.contains(r.device));
                        }
                    }
                }
                if self.devs.len() == self.slots.len() {
                    self.complete_binding();
                }
            }
            return Vec::new();
        }
        let found = match self.bound_slot(r.device) {
            Some(s) => {
                assert(self.slot_views()[s as int] == self.slots@[s as int].view());
                self.slots[s].get(r.key)
            },
            None => None,
        };
        match found {
            None => Vec::new(),
            Some(Some(notes)) => {
                if self.mode == SuppressionMode::PassThrough {
                    self.midi.process_msg(r, notes)
                } else {
                    Vec::new()
                }
            },
            Some(None) => {
                let edge = match self.midi.last_dir(r.device, r.key) {
                    Some(d) => d != r.dir,
                    None => false,
                };
                let none: Vec<MidiNote> = Vec::new();
                self.midi.process_msg(r, &none);
                if edge && r.dir == KDir::Down {
                    self.mode = match self.mode {
                        SuppressionMode::PassThrough => SuppressionMode::ProcessNone,
                        SuppressionMode::ProcessNone => SuppressionMode::PassThrough,
                        SuppressionMode::KillAll => SuppressionMode::KillAll,
                    };
                }
                Vec::new()
            },
        }
    }

    /// Looks among all logged events, newest first, for the device event
    /// behind an intercepted key event; a match is consumed.
    pub fn correlate(&mut self, key: KeyCode, dir: KDir) -> (r: Option<KeyEvent>)
        requires
            old(self).wf(),
        ensures
            final(self).wf(),
            scanned(old(self).log(), final(self).log(), old(self).log_capacity() as int, key, dir, r),
            final(self).log_capacity() == old(self).log_capacity(),
            final(self).slot_views() == old(self).slot_views(),
            final(self).devices() == old(self).devices(),
            final(self).mode() == old(self).mode(),
            final(self).counts() == old(self).counts(),
            final(self).midi_keys() == old(self).midi_keys(),
    {
        let n = self.log.len();
        self.log.rec_from_hook_msg_in_logs(n, key, dir)
    }

    /// After `correlate` failed: logs the device events that were still
    /// waiting, oldest first, and looks for the match among those only.
    pub fn correlate_drained(&mut self, drained: &Vec<KeyEvent>, key: KeyCode, dir: KDir) -> (r: Option<KeyEvent>)
        requires
            old(self).wf(),
        ensures
            final(self).wf(),
            scanned(
                pushed_all(old(self).log(), drained@),
                final(self).log(),
                drained@.len() as int,
                key,
                dir,
                r,
            ),
            final(self).log_capacity() == old(self).log_capacity(),
            final(self).slot_views() == old(self).slot_views(),
            final(self).devices() == old(self).devices(),
            final(self).mode() == old(self).mode(),
            final(self).counts() == old(self).counts(),
            final(self).midi_keys() == old(self).midi_keys(),
    {
        self.log.rec_from_drained(drained, key, dir)
    }
}

/// The distinct devices among the presses of `es`, in order of first press.
pub open spec fn distinct_presses(es: Seq<KeyEvent>) -> Seq<DeviceId>
    decreases es.len(),
{
    if es.len() == 0 {
        Seq::empty()
    } else {
        let prev = distinct_presses(es.drop_last());
        let e = es.last();
        if e.dir == KDir::Down && !prev.contains(e.device) {
            prev.push(e.device)
        } else {
            prev
        }
    }
}

/// The binding of `slots` slots after the events `es`, starting from none.
pub open spec fn bound_after(es: Seq<KeyEvent>, slots: nat) -> Seq<DeviceId>
    decreases es.len(),
{
    if es.len() == 0 {
        Seq::empty()
    } else {
        bind_step(bound_after(es.drop_last(), slots), slots, es.last())
    }
}

/// Slots are bound, from slot 0 up, to the distinct devices in the order of
/// their first press; a further press of a bound device takes no slot; no
/// device holds two slots; and the presses after the last slot is bound
/// change nothing.
pub proof fn lemma_binding_order(es: Seq<KeyEvent>, slots: nat)
    ensures
        bound_after(es, slots) == if distinct_presses(es).len() <= slots {
            distinct_presses(es)
        } else {
            distinct_presses(es).subrange(0, slots as int)
        },
        distinct(bound_after(es, slots)),
        bound_after(es, slots).len() <= slots,
    decreases es.len(),
{
    if es.len() > 0 {
        let prev = es.drop_last();
        let e = es.last();
        lemma_binding_order(prev, slots);
        let d0 = distinct_presses(prev);
        let b0 = bound_after(prev, slots);
        let b = bound_after(es, slots);
        let d = distinct_presses(es);
        if d0.len() > slots {
            assert(d.subrange(0, slots as int) =~= d0.subrange(0, slots as int));
        } else if d0.len() == slots && e.dir == KDir::Down && !d0.contains(e.device) {
            assert(d.subrange(0, slots as int) =~= d0);
        }
        if b.len() > b0.len() {
            assert forall|i: int, j: int| 0 <= i < b.len() && 0 <= j < b.len() && #[trigger] b[i] == #[trigger] b[j] implies i == j by {
                if i < b0.len() && j == b0.len() {
                    assert(b0.contains(e.device));
                }
                if j < b0.len() && i == b0.len() {
                    assert(b0.contains(e.device));
                }
                if i < b0.len() && j < b0.len() {
                    assert(b0[i] == b0[j]);
                }
            }
        }
    }
}

/// Binding completes once: when every slot is bound, no event changes it.
pub proof fn lemma_binding_completes_once(devs: Seq<DeviceId>, slots: nat, r: KeyEvent)
    requires
        devs.len() == slots,
    ensures
        bind_step(devs, slots, r) == devs,
{
}

/// In `KillAll` every intercepted key is swallowed; a toggle key is swallowed
/// in every mode; in `PassThrough` exactly the keys that a keymap names are
/// swallowed; in `ProcessNone` only toggle keys are.
pub proof fn lemma_suppression(mode: SuppressionMode, found: Option<Option<Seq<MidiNote>>>)
    ensures
        mode == SuppressionMode::KillAll ==> kill_verdict(mode, found),
        found == Some(None::<Seq<MidiNote>>) ==> kill_verdict(mode, found),
        mode == SuppressionMode::PassThrough ==> (kill_verdict(mode, found) <==> found is Some),
        mode == SuppressionMode::ProcessNone ==> (kill_verdict(mode, found) <==> found == Some(
            None::<Seq<MidiNote>>,
        )),
{
}

} // verus!
