//! Alias files and keymap files, as lists of cells, turned into key codes
//! and chord tables.
use vstd::prelude::*;
use crate::chord::{
    chord_parse, chord_pitches, digits_value, in_midi_range, is_digit, is_space, midi_chord_of,
    lemma_chord_parse_unique, Chord, ChordError, MidiNote,
};
use crate::event::KeyCode;
use crate::keymap::{entry_notes, SlotEntry, SlotMap};
use crate::midi::notes_wf;

verus! {

/// The number written as an optional `+` followed by one or more decimal digits.
pub open spec fn unsigned_text(s: Seq<char>) -> Option<int> {
    let body = if s.len() > 0 && s[0] == '+' {
        s.drop_first()
    } else {
        s
    };
    if body.len() > 0 && (forall|i: int| 0 <= i < body.len() ==> is_digit(#[trigger] body[i])) {
        Some(digits_value(body))
    } else {
        None
    }
}

/// The `u16` that `s` spells, if any.
pub open spec fn u16_text(s: Seq<char>) -> Option<int> {
    match unsigned_text(s) {
        Some(v) => if v <= 65535 { Some(v) } else { None },
        None => None,
    }
}

/// The `u8` that `s` spells, if any.
pub open spec fn u8_text(s: Seq<char>) -> Option<int> {
    match unsigned_text(s) {
        Some(v) => if v <= 255 { Some(v) } else { None },
        None => None,
    }
}

/// Relies on `str::parse::<u16>`: an optional `+` followed by at least one
/// ASCII digit, whose value fits in `u16`, parses to that value; anything else fails.
#[verifier::external_body]
fn parse_u16(s: &str) -> (r: Option<u16>)
    ensures
        match r {
            Some(v) => u16_text(s@) == Some(v as int),
            None => u16_text(s@) is None,
        },
{
    s.parse::<u16>().ok()
}

/// Relies on `str::parse::<u8>`: an optional `+` followed by at least one
/// ASCII digit, whose value fits in `u8`, parses to that value; anything else fails.
#[verifier::external_body]
fn parse_u8(s: &str) -> (r: Option<u8>)
    ensures
        match r {
            Some(v) => u8_text(s@) == Some(v as int),
            None => u8_text(s@) is None,
        },
{
    s.parse::<u8>().ok()
}

/// The first index at or after `i` that holds no white space, or the length.
pub open spec fn skip_spaces(s: Seq<char>, i: int) -> int
    decreases s.len() - i,
{
    if 0 <= i < s.len() && is_space(s[i]) {
        skip_spaces(s, i + 1)
    } else {
        i
    }
}

/// The end of `s.subrange(0, j)` without its trailing white space.
pub open spec fn trim_end(s: Seq<char>, j: int) -> int
    decreases j,
{
    if 0 < j <= s.len() && is_space(s[j - 1]) {
        trim_end(s, j - 1)
    } else {
        j
    }
}

/// `s` without leading and trailing white space.
pub open spec fn trimmed(s: Seq<char>) -> Seq<char> {
    let lo = skip_spaces(s, 0);
    if lo >= s.len() {
        Seq::empty()
    } else {
        s.subrange(lo, trim_end(s, s.len() as int))
    }
}

proof fn lemma_trim_end(s: Seq<char>, lo: int, j: int)
    requires
        0 <= lo < j <= s.len(),
        !is_space(s[lo]),
    ensures
        lo < trim_end(s, j) <= j,
    decreases j,
{
    if j - 1 > lo && is_space(s[j - 1]) {
        lemma_trim_end(s, lo, j - 1);
    }
}

proof fn lemma_skip_spaces(s: Seq<char>, i: int)
    requires
        0 <= i <= s.len(),
    ensures
        i <= skip_spaces(s, i) <= s.len(),
        skip_spaces(s, i) < s.len() ==> !is_space(s[skip_spaces(s, i)]),
    decreases s.len() - i,
{
    if i < s.len() && is_space(s[i]) {
        lemma_skip_spaces(s, i + 1);
    }
}

/// `s` without leading and trailing white space.
pub fn trim(s: &str) -> (r: &str)
    ensures
        r@ == trimmed(s@),
{
    let n = s.unicode_len();
    let mut lo: usize = 0;
    while lo < n && crate::chord::space(s.get_char(lo))
        invariant
            lo <= n,
            n == s@.len(),
            skip_spaces(s@, 0) == skip_spaces(s@, lo as int),
        decreases n - lo,
    {
        lo = lo + 1;
    }
    if lo >= n {
        return s.substring_char(0, 0);
    }
    let mut hi: usize = n;
    proof {
        lemma_trim_end(s@, lo as int, n as int);
    }
    while hi > lo + 1 && crate::chord::space(s.get_char(hi - 1))
        invariant
            lo < hi <= n,
            n == s@.len(),
            !is_space(s@[lo as int]),
            trim_end(s@, n as int) == trim_end(s@, hi as int),
        decreases hi,
    {
        hi = hi - 1;
    }
    s.substring_char(lo, hi)
}

/// The non-blank cells, trimmed, in order.
pub open spec fn clean_cells(cells: Seq<Seq<char>>) -> Seq<Seq<char>>
    decreases cells.len(),
{
    if cells.len() == 0 {
        Seq::empty()
    } else {
        let prev = clean_cells(cells.drop_last());
        let t = trimmed(cells.last());
        if t.len() == 0 {
            prev
        } else {
            prev.push(t)
        }
    }
}

/// The text of each cell.
pub open spec fn cell_views(cells: Seq<String>) -> Seq<Seq<char>> {
    Seq::new(cells.len(), |i: int| cells[i]@)
}

/// The non-blank cells of `cells`, trimmed.
pub fn clean(cells: &Vec<String>) -> (r: Vec<&str>)
    ensures
        r@.len() == clean_cells(cell_views(cells@)).len(),
        forall|i: int| 0 <= i < r@.len() ==> (#[trigger] r@[i])@ == clean_cells(cell_views(cells@))[i],
{
    let mut r: Vec<&str> = Vec::new();
    let mut k: usize = 0;
    while k < cells.len()
        invariant
            k <= cells@.len(),
            r@.len() == clean_cells(cell_views(cells@).subrange(0, k as int)).len(),
            forall|i: int|
                0 <= i < r@.len() ==> (#[trigger] r@[i])@ == clean_cells(
                    cell_views(cells@).subrange(0, k as int),
                )[i],
        decreases cells@.len() - k,
    {
        let t = trim(cells[k].as_str());
        assert(cell_views(cells@).subrange(0, k + 1).drop_last() =~= cell_views(cells@).subrange(0, k as int));
        assert(cell_views(cells@).subrange(0, k + 1).last() == cells@[k as int]@);
        if t.unicode_len() > 0 {
            r.push(t);
        }
        k = k + 1;
    }
    assert(cell_views(cells@).subrange(0, cells@.len() as int) =~= cell_views(cells@));
    r
}

/// Whether two texts are equal.
pub fn same_text(a: &str, b: &str) -> (r: bool)
    ensures
        r == (a@ == b@),
{
    let n = a.unicode_len();
    if n != b.unicode_len() {
        return false;
    }
    let mut i: usize = 0;
    while i < n
        invariant
            i <= n,
            n == a@.len(),
            n == b@.len(),
            forall|j: int| 0 <= j < i ==> a@[j] == b@[j],
        decreases n - i,
    {
        if a.get_char(i) != b.get_char(i) {
            return false;
        }
        i = i + 1;
    }
    assert(a@ =~= b@);
    true
}

/// Why an alias file or a keymap file could not be read.
#[derive(Debug, Clone)]
pub enum ConfigError {
    /// A chord cell that is no chord, or whose notes fall outside MIDI.
    InvChord(ChordError),
    /// A key cell that is neither an alias nor a key code.
    InvKeyName(String),
    /// A velocity cell that is no `u8`.
    InvVelocity(String),
    /// A chord cell with no key cell after it.
    NoKey(String),
    /// A chord cell and a key cell with no velocity cell after them.
    NoVel(String, String),
    /// A key code cell of the alias file that is no `u16`.
    InvAliasCode(String),
    /// An alias with no key code cell after it.
    NoAliasCode(String),
}

/// The key code that `name` is an alias for: the last definition wins.
pub open spec fn alias_of(aliases: Seq<(Seq<char>, KeyCode)>, name: Seq<char>) -> Option<KeyCode>
    decreases aliases.len(),
{
    if aliases.len() == 0 {
        None
    } else if aliases.last().0 == name {
        Some(aliases.last().1)
    } else {
        alias_of(aliases.drop_last(), name)
    }
}

/// Key names and the key codes they stand for.
pub struct AliasTable {
    entries: Vec<(String, KeyCode)>,
}

impl AliasTable {
    pub closed spec fn view(&self) -> Seq<(Seq<char>, KeyCode)> {
        Seq::new(self.entries@.len(), |i: int| (self.entries@[i].0@, self.entries@[i].1))
    }

    pub fn new() -> (r: AliasTable)
        ensures
            r.view() == Seq::<(Seq<char>, KeyCode)>::empty(),
    {
        AliasTable { entries: Vec::new() }
    }

    /// Defines `name` as an alias for `code`, replacing any earlier definition.
    pub fn insert(&mut self, name: &str, code: KeyCode)
        ensures
            final(self).view() == old(self).view().push((name@, code)),
    {
        self.entries.push((name.to_owned(), code));
        assert(self.view() =~= old(self).view().push((name@, code)));
    }

    /// The key code that `name` stands for.
    pub fn get(&self, name: &str) -> (r: Option<KeyCode>)
        ensures
            r == alias_of(self.view(), name@),
    {
        let mut i: usize = self.entries.len();
        assert(self.view().subrange(0, i as int) =~= self.view());
        while i > 0
            invariant
                i <= self.entries@.len(),
                alias_of(self.view(), name@) == alias_of(self.view().subrange(0, i as int), name@),
            decreases i,
        {
            assert(self.view().subrange(0, i as int).drop_last() =~= self.view().subrange(0, i - 1));
            if same_text(self.entries[i - 1].0.as_str(), name) {
                return Some(self.entries[i - 1].1);
            }
            i = i - 1;
        }
        None
    }
}

/// The key code a key cell names: an alias, else a literal code.
pub open spec fn key_code_of(aliases: Seq<(Seq<char>, KeyCode)>, c: Seq<char>) -> Option<KeyCode> {
    match alias_of(aliases, c) {
        Some(k) => Some(k),
        None => match u16_text(c) {
            Some(v) => Some(v as KeyCode),
            None => None,
        },
    }
}

/// The key code a key cell names: an alias, else a literal code.
pub fn resolve_key(aliases: &AliasTable, c: &str) -> (r: Option<KeyCode>)
    ensures
        r == key_code_of(aliases.view(), c@),
{
    match aliases.get(c) {
        Some(k) => Some(k),
        None => parse_u16(c),
    }
}

/// What reading an alias file's cells gives: pairs of an alias and a key code.
pub open spec fn aliases_of(cs: Seq<Seq<char>>) -> Result<Seq<(Seq<char>, KeyCode)>, AliasFault>
    decreases cs.len(),
{
    if cs.len() < 2 {
        if cs.len() == 0 {
            Ok(Seq::empty())
        } else {
            Err(AliasFault::NoCode(cs[0]))
        }
    } else {
        match u16_text(cs[1]) {
            None => Err(AliasFault::InvCode(cs[1])),
            Some(v) => match aliases_of(cs.subrange(2, cs.len() as int)) {
                Ok(rest) => Ok(seq![(cs[0], v as KeyCode)] + rest),
                Err(f) => Err(f),
            },
        }
    }
}

/// What is wrong with an alias file, and the cell at fault.
pub enum AliasFault {
    InvCode(Seq<char>),
    NoCode(Seq<char>),
}

/// Reads the cells of an alias file: alternately an alias and its key code.
/// Blank cells are skipped; cells are trimmed.
pub fn parse_aliases(cells: &Vec<String>) -> (r: Result<AliasTable, ConfigError>)
    ensures
        match aliases_of(clean_cells(cell_views(cells@))) {
            Ok(t) => r matches Ok(a) && a.view() == t,
            Err(AliasFault::InvCode(c)) => r matches Err(ConfigError::InvAliasCode(s)) && s@ == c,
            Err(AliasFault::NoCode(c)) => r matches Err(ConfigError::NoAliasCode(s)) && s@ == c,
        },
{
    let cs = clean(cells);
    let ghost all = clean_cells(cell_views(cells@));
    let mut table = AliasTable::new();
    let mut k: usize = 0;
    proof {
        assert(all.subrange(0, all.len() as int) =~= all);
        match aliases_of(all) {
            Ok(rest) => {
                assert(table.view() + rest =~= rest);
            },
            Err(_) => {},
        }
    }
    while k + 1 < cs.len()
        invariant
            k % 2 == 0,
            k <= cs@.len(),
            all == clean_cells(cell_views(cells@)),
            cs@.len() == all.len(),
            forall|i: int| 0 <= i < cs@.len() ==> (#[trigger] cs@[i])@ == all[i],
            aliases_of(all) == match aliases_of(all.subrange(k as int, all.len() as int)) {
                Ok(rest) => Ok(table.view() + rest),
                Err(f) => Err::<Seq<(Seq<char>, KeyCode)>, AliasFault>(f),
            },
        decreases cs@.len() - k,
    {
        let ghost t = all.subrange(k as int, all.len() as int);
        assert(t.subrange(2, t.len() as int) =~= all.subrange(k + 2, all.len() as int));
        assert(t[1] == all[k + 1]);
        assert(t[0] == all[k as int]);
        match parse_u16(cs[k + 1]) {
            None => {
                assert(aliases_of(t) == Err::<Seq<(Seq<char>, KeyCode)>, AliasFault>(AliasFault::InvCode(t[1])));
                return Err(ConfigError::InvAliasCode(cs[k + 1].to_owned()));
            },
            Some(v) => {
                let ghost before = table.view();
                table.insert(cs[k], v);
                proof {
                    match aliases_of(all.subrange(k + 2, all.len() as int)) {
                        Ok(rest) => {
                            assert(before + (seq![(t[0], v as KeyCode)] + rest) =~= table.view() + rest);
                        },
                        Err(_) => {},
                    }
                }
            },
        }
        k = k + 2;
    }
    if k < cs.len() {
        return Err(ConfigError::NoAliasCode(cs[k].to_owned()));
    }
    proof {
        assert(all.subrange(k as int, all.len() as int) =~= Seq::<Seq<char>>::empty());
        assert(table.view() + Seq::<(Seq<char>, KeyCode)>::empty() =~= table.view());
    }
    Ok(table)
}

/// The notes that the chord cell `text` gives at velocity `vel`, if it is a
/// chord whose notes all lie in MIDI's range.
pub open spec fn chord_notes(text: Seq<char>, vel: u8) -> Option<Seq<MidiNote>> {
    if exists|c: Chord| chord_parse(text, Ok(c)) {
        let ps = chord_pitches(choose|c: Chord| chord_parse(text, Ok(c)));
        if ps.len() == 0 || (vel <= 127 && in_midi_range(ps)) {
            Some(Seq::new(ps.len(), |i: int| MidiNote { n: ps[i] as u8, vel }))
        } else {
            None
        }
    } else {
        None
    }
}

/// `e` is what `Chord::new(text)` or its `to_midi_chord(vel)` reports.
pub open spec fn chord_error_of(text: Seq<char>, vel: u8, e: ChordError) -> bool {
    chord_parse(text, Err(e)) || exists|c: Chord|
        chord_parse(text, Ok(c)) && midi_chord_of(chord_pitches(c), vel, Err(e))
}

/// Where a keymap file's reader stands between cells: expecting a chord
/// cell, a key cell after the chord cell, or a velocity cell after both.
pub enum RecordState {
    Chord,
    Key(Seq<char>),
    Vel(Seq<char>, Seq<char>, KeyCode),
}

/// What is wrong with a keymap file, and the cells at fault.
pub enum KeymapFault {
    InvKeyName(Seq<char>),
    InvVelocity(Seq<char>),
    InvChord(Seq<char>, u8),
    NoKey(Seq<char>),
    NoVel(Seq<char>, Seq<char>),
}

/// One cell read in state `st` with the entries `acc` so far. A record is
/// `[chord, key, velocity]`, or `["TOGGLE", key]` for a toggle key.
pub open spec fn cell_step(
    st: RecordState,
    acc: Seq<(KeyCode, Option<Seq<MidiNote>>)>,
    c: Seq<char>,
    aliases: Seq<(Seq<char>, KeyCode)>,
) -> Result<(RecordState, Seq<(KeyCode, Option<Seq<MidiNote>>)>), KeymapFault> {
    match st {
        RecordState::Chord => Ok((RecordState::Key(c), acc)),
        RecordState::Key(chord) => match key_code_of(aliases, c) {
            None => Err(KeymapFault::InvKeyName(c)),
            Some(k) => if chord == "TOGGLE"@ {
                Ok((RecordState::Chord, acc.push((k, None))))
            } else {
                Ok((RecordState::Vel(chord, c, k), acc))
            },
        },
        RecordState::Vel(chord, _, k) => match u8_text(c) {
            None => Err(KeymapFault::InvVelocity(c)),
            Some(v) => match chord_notes(chord, v as u8) {
                None => Err(KeymapFault::InvChord(chord, v as u8)),
                Some(ns) => Ok((RecordState::Chord, acc.push((k, Some(ns))))),
            },
        },
    }
}

/// The cells `cs` read in order, stopping at the first fault.
pub open spec fn keymap_run(cs: Seq<Seq<char>>, aliases: Seq<(Seq<char>, KeyCode)>) -> Result<
    (RecordState, Seq<(KeyCode, Option<Seq<MidiNote>>)>),
    KeymapFault,
>
    decreases cs.len(),
{
    if cs.len() == 0 {
        Ok((RecordState::Chord, Seq::empty()))
    } else {
        match keymap_run(cs.drop_last(), aliases) {
            Err(f) => Err(f),
            Ok(p) => cell_step(p.0, p.1, cs.last(), aliases),
        }
    }
}

/// The entries that the cells of a keymap file give, in order, or its first fault.
pub open spec fn keymap_of(cs: Seq<Seq<char>>, aliases: Seq<(Seq<char>, KeyCode)>) -> Result<
    Seq<(KeyCode, Option<Seq<MidiNote>>)>,
    KeymapFault,
> {
    match keymap_run(cs, aliases) {
        Err(f) => Err(f),
        Ok(p) => match p.0 {
            RecordState::Chord => Ok(p.1),
            RecordState::Key(chord) => Err(KeymapFault::NoKey(chord)),
            RecordState::Vel(chord, key, _) => Err(KeymapFault::NoVel(chord, key)),
        },
    }
}

/// `e` reports the fault `f`.
pub open spec fn reports_keymap(e: ConfigError, f: KeymapFault) -> bool {
    match f {
        KeymapFault::InvKeyName(c) => e matches ConfigError::InvKeyName(s) && s@ == c,
        KeymapFault::InvVelocity(c) => e matches ConfigError::InvVelocity(s) && s@ == c,
        KeymapFault::InvChord(t, vel) => e matches ConfigError::InvChord(ce) && chord_error_of(t, vel, ce),
        KeymapFault::NoKey(c) => e matches ConfigError::NoKey(s) && s@ == c,
        KeymapFault::NoVel(a, b) => e matches ConfigError::NoVel(s1, s2) && s1@ == a && s2@ == b,
    }
}

/// The key and chord of each entry.
pub open spec fn slot_pairs(es: Seq<SlotEntry>) -> Seq<(KeyCode, Option<Seq<MidiNote>>)> {
    Seq::new(es.len(), |i: int| (es[i].key, entry_notes(es[i])))
}

proof fn lemma_run_err(cs: Seq<Seq<char>>, aliases: Seq<(Seq<char>, KeyCode)>, k: int)
    requires
        0 <= k <= cs.len(),
        keymap_run(cs.subrange(0, k), aliases) is Err,
    ensures
        keymap_run(cs, aliases) == keymap_run(cs.subrange(0, k), aliases),
    decreases cs.len() - k,
{
    if k < cs.len() {
        assert(cs.subrange(0, k + 1).drop_last() =~= cs.subrange(0, k));
        lemma_run_err(cs, aliases, k + 1);
    } else {
        assert(cs.subrange(0, k) =~= cs);
    }
}

#[derive(Clone, Copy, PartialEq, Eq, Structural)]
enum Expect {
    Chord,
    Key,
    Vel,
}

spec fn state_of(e: Expect, chord: Seq<char>, key: Seq<char>, code: KeyCode) -> RecordState {
    match e {
        Expect::Chord => RecordState::Chord,
        Expect::Key => RecordState::Key(chord),
        Expect::Vel => RecordState::Vel(chord, key, code),
    }
}

/// The notes of the chord cell `text` at velocity `vel`.
fn chord_cell_notes(text: &str, vel: u8) -> (r: Result<Vec<MidiNote>, ChordError>)
    ensures
        match chord_notes(text@, vel) {
            Some(ns) => r matches Ok(v) && v@ == ns && notes_wf(v@),
            None => r matches Err(e) && chord_error_of(text@, vel, e),
        },
{
    let chord = match Chord::new(text) {
        Ok(c) => c,
        Err(e) => {
            proof {
                if exists|c: Chord| chord_parse(text@, Ok(c)) {
                    let c = choose|c: Chord| chord_parse(text@, Ok(c));
                    lemma_chord_parse_unique(text@, Ok(c), Err(e));
                }
            }
            return Err(e);
        },
    };
    proof {
        let c = choose|c: Chord| chord_parse(text@, Ok(c));
        lemma_chord_parse_unique(text@, Ok(c), Ok(chord));
    }
    let ghost ps = chord_pitches(chord);
    match chord.to_midi_chord(vel) {
        Ok(v) => {
            assert(v@ =~= Seq::new(ps.len(), |i: int| MidiNote { n: ps[i] as u8, vel }));
            Ok(v)
        },
        Err(e) => Err(e),
    }
}

/// Reads the cells of one keymap file: records `[chord, key, velocity]` or
/// `["TOGGLE", key]`, where a key is an alias of `aliases` or a literal key
/// code. Blank cells are skipped; cells are trimmed; a later record of a key
/// replaces an earlier one. Any fault fails the whole file.
pub fn parse_to_kmap_and_toggles(cells: &Vec<String>, aliases: &AliasTable) -> (r: Result<SlotMap, ConfigError>)
    ensures
        match keymap_of(clean_cells(cell_views(cells@)), aliases.view()) {
            Ok(t) => r matches Ok(m) && m.wf() && slot_pairs(m.view()) == t,
            Err(f) => r matches Err(e) && reports_keymap(e, f),
        },
{
    let cs = clean(cells);
    let ghost all = clean_cells(cell_views(cells@));
    let ghost av = aliases.view();
    let mut out = SlotMap::new();
    let mut expect = Expect::Chord;
    let mut chord_str: &str = "";
    let mut key_str: &str = "";
    let mut code: KeyCode = 0;
    let mut k: usize = 0;
    assert(slot_pairs(out.view()) =~= Seq::<(KeyCode, Option<Seq<MidiNote>>)>::empty());
    assert(all.subrange(0, 0) =~= Seq::<Seq<char>>::empty());
    while k < cs.len()
        invariant
            k <= cs@.len(),
            all == clean_cells(cell_views(cells@)),
            av == aliases.view(),
            cs@.len() == all.len(),
            forall|i: int| 0 <= i < cs@.len() ==> (#[trigger] cs@[i])@ == all[i],
            out.wf(),
            keymap_run(all.subrange(0, k as int), av) == Ok::<
                (RecordState, Seq<(KeyCode, Option<Seq<MidiNote>>)>),
                KeymapFault,
            >((state_of(expect, chord_str@, key_str@, code), slot_pairs(out.view()))),
        decreases cs@.len() - k,
    {
        let c = cs[k];
        let ghost prefix = all.subrange(0, k + 1);
        assert(prefix.drop_last() =~= all.subrange(0, k as int));
        assert(prefix.last() == c@);
        match expect {
            Expect::Chord => {
                chord_str = c;
                expect = Expect::Key;
            },
            Expect::Key => {
                match resolve_key(aliases, c) {
                    None => {
                        proof {
                            lemma_run_err(all, av, k + 1);
                        }
                        return Err(ConfigError::InvKeyName(c.to_owned()));
                    },
                    Some(kc) => {
                        if same_text(chord_str, "TOGGLE") {
                            let ghost before = out.view();
                            out.insert(kc, None);
                            assert(slot_pairs(out.view()) =~= slot_pairs(before).push((kc, None)));
                            expect = Expect::Chord;
                        } else {
                            key_str = c;
                            code = kc;
                            expect = Expect::Vel;
                        }
                    },
                }
            },
            Expect::Vel => {
                let vel = match parse_u8(c) {
                    Some(v) => v,
                    None => {
                        proof {
                            lemma_run_err(all, av, k + 1);
                        }
                        return Err(ConfigError::InvVelocity(c.to_owned()));
                    },
                };
                match chord_cell_notes(chord_str, vel) {
                    Ok(notes) => {
                        let ghost before = out.view();
                        let ghost nv = notes@;
                        out.insert(code, Some(notes));
                        assert(slot_pairs(out.view()) =~= slot_pairs(before).push((code, Some(nv))));
                        expect = Expect::Chord;
                    },
                    Err(e) => {
                        proof {
                            lemma_run_err(all, av, k + 1);
                        }
                        return Err(ConfigError::InvChord(e));
                    },
                }
            },
        }
        k = k + 1;
    }
    assert(all.subrange(0, all.len() as int) =~= all);
    match expect {
        Expect::Chord => Ok(out),
        Expect::Key => Err(ConfigError::NoKey(chord_str.to_owned())),
        Expect::Vel => Err(ConfigError::NoVel(chord_str.to_owned(), key_str.to_owned())),
    }
}

} // verus!
