//! Note tokens and chord specifications, and their MIDI notes.
use vstd::prelude::*;
use std::num::ParseIntError;

verus! {

/// std's integer parse error, carried as it is in `NoteError::InvOctave`.
#[verifier::external_type_specification]
#[verifier::external_body]
pub struct ExParseIntError(ParseIntError);

/// Relies on `ParseIntError`'s `Clone`, used by the derived `Clone` of `NoteError`.
pub assume_specification[ <ParseIntError as Clone>::clone ](e: &ParseIntError) -> ParseIntError;

/// Why a note token or a MIDI note could not be made.
#[derive(Debug, Clone)]
pub enum NoteError {
    EmptyStr,
    InvNoteLetter(String),
    MissingOctave(String),
    InvOctave(ParseIntError, String),
    InvMidiVel(u8),
    InvMidiNote,
}

/// What is wrong with a note token, in the order the checks are made.
pub enum NoteFault {
    Empty,
    Letter,
    Accidentals,
    MissingOctave,
    Octave,
}

/// An ASCII decimal digit.
pub open spec fn is_digit(c: char) -> bool {
    '0' <= c && c <= '9'
}

/// The value of a run of decimal digits.
pub open spec fn digits_value(s: Seq<char>) -> int
    decreases s.len(),
{
    if s.len() == 0 {
        0
    } else {
        digits_value(s.drop_last()) * 10 + (s.last() as int - '0' as int)
    }
}

/// The integer written as an optional sign followed by one or more decimal digits.
pub open spec fn integer_text(s: Seq<char>) -> Option<int> {
    let signed = s.len() > 0 && (s[0] == '+' || s[0] == '-');
    let body = if signed { s.drop_first() } else { s };
    if body.len() > 0 && (forall|i: int| 0 <= i < body.len() ==> is_digit(#[trigger] body[i])) {
        if signed && s[0] == '-' {
            Some(-digits_value(body))
        } else {
            Some(digits_value(body))
        }
    } else {
        None
    }
}

/// The `i8` that `s` spells, if any.
pub open spec fn i8_text(s: Seq<char>) -> Option<int> {
    match integer_text(s) {
        Some(v) => if -128 <= v <= 127 { Some(v) } else { None },
        None => None,
    }
}

/// Relies on `str::parse::<i8>`: an optional `+` or `-` followed by at least one
/// ASCII digit, whose value fits in `i8`, parses to that value; anything else fails.
#[verifier::external_body]
fn parse_i8(s: &str) -> (r: Result<i8, ParseIntError>)
    ensures
        match r {
            Ok(v) => i8_text(s@) == Some(v as int),
            Err(_) => i8_text(s@) is None,
        },
{
    s.parse::<i8>()
}

/// The note letter that `c` names.
pub open spec fn letter_of(c: char) -> Option<NoteLetter> {
    if c == 'A' {
        Some(NoteLetter::A)
    } else if c == 'B' {
        Some(NoteLetter::B)
    } else if c == 'C' {
        Some(NoteLetter::C)
    } else if c == 'D' {
        Some(NoteLetter::D)
    } else if c == 'E' {
        Some(NoteLetter::E)
    } else if c == 'F' {
        Some(NoteLetter::F)
    } else if c == 'G' {
        Some(NoteLetter::G)
    } else {
        None
    }
}

/// How many times `c` repeats in `s` from index `i` on.
pub open spec fn run_from(s: Seq<char>, i: int, c: char) -> nat
    decreases s.len() - i,
{
    if 0 <= i < s.len() && s[i] == c {
        1 + run_from(s, i + 1, c)
    } else {
        0
    }
}

/// The accidental signs after the letter: all `#` or all `b`.
pub open spec fn accidental_run(s: Seq<char>) -> nat {
    if s.len() > 1 && (s[1] == '#' || s[1] == 'b') {
        run_from(s, 1, s[1])
    } else {
        0
    }
}

/// The accidental sum: +1 for each `#`, -1 for each `b`.
pub open spec fn accidental_sum(s: Seq<char>) -> int {
    if s.len() > 1 && s[1] == '#' {
        accidental_run(s) as int
    } else {
        -(accidental_run(s) as int)
    }
}

/// The note that the token `s` spells: a letter A-G, a run of one accidental
/// sign, then a signed octave number.
pub open spec fn note_of(s: Seq<char>) -> Result<Note, NoteFault> {
    if s.len() == 0 {
        Err(NoteFault::Empty)
    } else if letter_of(s[0]) is None {
        Err(NoteFault::Letter)
    } else if accidental_sum(s) > 127 || accidental_sum(s) < -128 {
        Err(NoteFault::Accidentals)
    } else {
        let text = s.subrange(1 + accidental_run(s) as int, s.len() as int);
        if text.len() == 0 {
            Err(NoteFault::MissingOctave)
        } else {
            match i8_text(text) {
                Some(o) => Ok(
                    Note {
                        octave: o as i8,
                        note: letter_of(s[0])->Some_0,
                        accidental: accidental_sum(s) as i8,
                    },
                ),
                None => Err(NoteFault::Octave),
            }
        }
    }
}

/// `e` is the error that reports `fault` for the token `s`.
pub open spec fn reports(e: NoteError, fault: NoteFault, s: Seq<char>) -> bool {
    match fault {
        NoteFault::Empty => e is EmptyStr,
        NoteFault::Letter => e matches NoteError::InvNoteLetter(t) && t@ == s,
        NoteFault::Accidentals => e is InvMidiNote,
        NoteFault::MissingOctave => e matches NoteError::MissingOctave(t) && t@ == s,
        NoteFault::Octave => e matches NoteError::InvOctave(_, t) && t@ == s,
    }
}

/// The seven natural note letters, each a fixed number of semitones above C.
#[derive(Debug, Clone, Copy, PartialEq, Eq, Structural)]
pub enum NoteLetter {
    C,
    D,
    E,
    F,
    G,
    A,
    B,
}

impl NoteLetter {
    /// Semitones above C within one octave.
    pub open spec fn offset(self) -> int {
        match self {
            NoteLetter::C => 0,
            NoteLetter::D => 2,
            NoteLetter::E => 4,
            NoteLetter::F => 5,
            NoteLetter::G => 7,
            NoteLetter::A => 9,
            NoteLetter::B => 11,
        }
    }

    pub fn semitones(&self) -> (r: i32)
        ensures
            r as int == self.offset(),
    {
        match self {
            NoteLetter::C => 0,
            NoteLetter::D => 2,
            NoteLetter::E => 4,
            NoteLetter::F => 5,
            NoteLetter::G => 7,
            NoteLetter::A => 9,
            NoteLetter::B => 11,
        }
    }
}

/// A pitch written as letter, accidental sum and octave.
#[derive(Debug, Clone, Copy, PartialEq, Eq, Structural)]
pub struct Note {
    pub octave: i8,
    pub note: NoteLetter,
    pub accidental: i8,
}

impl Note {
    /// `(octave + 1) * 12 + letter offset + accidental sum`; octave 4 holds middle C (60).
    pub open spec fn spec_pitch(self) -> int {
        (self.octave as int + 1) * 12 + self.note.offset() + self.accidental as int
    }

    /// Reads a note token such as `C4`, `C#4`, `Db4` or `Bbb-1`.
    ///
    /// A run of accidentals longer than an `i8` holds is reported as `InvMidiNote`.
    pub fn new(s: &str) -> (r: Result<Note, NoteError>)
        ensures
            match note_of(s@) {
                Ok(n) => r == Ok::<Note, NoteError>(n),
                Err(f) => r matches Err(e) && reports(e, f, s@),
            },
    {
        let n = s.unicode_len();
        if n == 0 {
            return Err(NoteError::EmptyStr);
        }
        let note = match s.get_char(0) {
            'A' => NoteLetter::A,
            'B' => NoteLetter::B,
            'C' => NoteLetter::C,
            'D' => NoteLetter::D,
            'E' => NoteLetter::E,
            'F' => NoteLetter::F,
            'G' => NoteLetter::G,
            _ => return Err(NoteError::InvNoteLetter(s.to_owned())),
        };
        let mut accidental: i8 = 0;
        let mut i: usize = 1;
        if n > 1 {
            let sign = s.get_char(1);
            if sign == '#' || sign == 'b' {
                while i < n && s.get_char(i) == sign
                    invariant
                        1 <= i <= n,
                        n == s@.len(),
                        sign == s@[1],
                        sign == '#' || sign == 'b',
                        letter_of(s@[0]) is Some,
                        run_from(s@, 1, sign) == (i - 1) + run_from(s@, i as int, sign),
                        sign == '#' ==> accidental as int == i - 1,
                        sign == 'b' ==> accidental as int == -(i - 1),
                    decreases n - i,
                {
                    assert(run_from(s@, i as int, sign) >= 1);
                    if sign == '#' {
                        if accidental == 127 {
                            return Err(NoteError::InvMidiNote);
                        }
                        accidental = accidental + 1;
                    } else {
                        if accidental == -128 {
                            return Err(NoteError::InvMidiNote);
                        }
                        accidental = accidental - 1;
                    }
                    i = i + 1;
                }
            }
        }
        assert(accidental_run(s@) == i - 1);
        assert(accidental_sum(s@) == accidental as int);
        if i == n {
            return Err(NoteError::MissingOctave(s.to_owned()));
        }
        let text = s.substring_char(i, n);
        match parse_i8(text) {
            Ok(octave) => Ok(Note { octave, note, accidental }),
            Err(e) => Err(NoteError::InvOctave(e, s.to_owned())),
        }
    }

    pub fn pitch(&self) -> (r: i32)
        ensures
            r as int == self.spec_pitch(),
    {
        (self.octave as i32 + 1) * 12 + self.note.semitones() + self.accidental as i32
    }

    /// The MIDI note of this pitch at velocity `vel`.
    pub fn to_midi(&self, vel: u8) -> (r: Result<MidiNote, NoteError>)
        ensures
            r == midi_note_of(self.spec_pitch(), vel),
    {
        MidiNote::new(self.pitch(), vel)
    }
}

/// A MIDI note number and velocity.
#[derive(Debug, Clone, Copy, PartialEq, Eq, Structural)]
pub struct MidiNote {
    pub n: u8,
    pub vel: u8,
}

impl MidiNote {
    /// Both values lie in the MIDI range 0-127.
    pub open spec fn wf(self) -> bool {
        self.n <= 127 && self.vel <= 127
    }

    /// A MIDI note: the velocity is checked first, then the pitch.
    pub fn new(pitch: i32, vel: u8) -> (r: Result<MidiNote, NoteError>)
        ensures
            r == midi_note_of(pitch as int, vel),
    {
        if vel > 127 {
            return Err(NoteError::InvMidiVel(vel));
        }
        if pitch < 0 || pitch > 127 {
            return Err(NoteError::InvMidiNote);
        }
        Ok(MidiNote { n: pitch as u8, vel })
    }
}

/// The MIDI note at `pitch` and `vel`, or why there is none.
pub open spec fn midi_note_of(pitch: int, vel: u8) -> Result<MidiNote, NoteError> {
    if vel > 127 {
        Err(NoteError::InvMidiVel(vel))
    } else if pitch < 0 || pitch > 127 {
        Err(NoteError::InvMidiNote)
    } else {
        Ok(MidiNote { n: pitch as u8, vel })
    }
}


/// A chord: literal notes, or a quality over a root with an optional lower bass note.
#[derive(Debug, Clone)]
pub enum Chord {
    Custom(Vec<Note>),
    Maj { root: Note, over: Option<Note> },
    Min { root: Note, over: Option<Note> },
    Mm7 { root: Note, over: Option<Note> },
    Dim { root: Note, over: Option<Note> },
}

/// Why a chord specification could not be read or turned into MIDI notes.
#[derive(Debug, Clone)]
pub enum ChordError {
    EmptyStr,
    InvNote(NoteError, String),
    MissingNotes,
    MissingOver,
    InvChordType(char, String),
    InvRoot { root: Note, over: Note, parse: String },
}

/// White space as Unicode's `White_Space` property defines it.
pub open spec fn is_space(c: char) -> bool {
    let u = c as u32;
    (9 <= u <= 13) || u == 32 || u == 0x85 || u == 0xA0 || u == 0x1680 || (0x2000 <= u <= 0x200A)
        || u == 0x2028 || u == 0x2029 || u == 0x202F || u == 0x205F || u == 0x3000
}

pub(crate) fn space(c: char) -> (r: bool)
    ensures
        r == is_space(c),
{
    let u = c as u32;
    (9 <= u && u <= 13) || u == 32 || u == 0x85 || u == 0xA0 || u == 0x1680 || (0x2000 <= u && u
        <= 0x200A) || u == 0x2028 || u == 0x2029 || u == 0x202F || u == 0x205F || u == 0x3000
}

/// Start and end of each maximal run of non-space characters, in order.
pub open spec fn word_spans(s: Seq<char>) -> Seq<(int, int)>
    decreases s.len(),
{
    if s.len() == 0 {
        Seq::empty()
    } else {
        let prev = word_spans(s.drop_last());
        let i = s.len() - 1;
        if is_space(s[i]) {
            prev
        } else if i > 0 && !is_space(s[i - 1]) {
            prev.update(prev.len() - 1, (prev.last().0, s.len() as int))
        } else {
            prev.push((i, s.len() as int))
        }
    }
}

/// The whitespace-separated words of `s`.
pub open spec fn words(s: Seq<char>) -> Seq<Seq<char>> {
    Seq::new(word_spans(s).len(), |k: int| s.subrange(word_spans(s)[k].0, word_spans(s)[k].1))
}

proof fn lemma_word_spans_nonempty(s: Seq<char>)
    requires
        s.len() > 0,
        !is_space(s.last()),
    ensures
        word_spans(s).len() > 0,
    decreases s.len(),
{
    let i = s.len() - 1;
    if i > 0 && !is_space(s[i - 1]) {
        lemma_word_spans_nonempty(s.drop_last());
    }
}

fn word_spans_of(s: &str) -> (r: Vec<(usize, usize)>)
    ensures
        r@.len() == word_spans(s@).len(),
        forall|k: int|
            0 <= k < r@.len() ==> r@[k].0 as int == word_spans(s@)[k].0 && r@[k].1 as int
                == word_spans(s@)[k].1,
        forall|k: int| 0 <= k < r@.len() ==> (#[trigger] r@[k]).0 < r@[k].1 <= s@.len(),
{
    let n = s.unicode_len();
    let mut r: Vec<(usize, usize)> = Vec::new();
    let mut i: usize = 0;
    while i < n
        invariant
            i <= n,
            n == s@.len(),
            r@.len() == word_spans(s@.subrange(0, i as int)).len(),
            forall|k: int|
                0 <= k < r@.len() ==> r@[k].0 as int == word_spans(s@.subrange(0, i as int))[k].0
                    && r@[k].1 as int == word_spans(s@.subrange(0, i as int))[k].1,
            forall|k: int| 0 <= k < r@.len() ==> (#[trigger] r@[k]).0 < r@[k].1 <= i,
        decreases n - i,
    {
        let c = s.get_char(i);
        let ghost t = s@.subrange(0, i + 1);
        assert(t.drop_last() =~= s@.subrange(0, i as int));
        if space(c) {
        } else if i > 0 && !space(s.get_char(i - 1)) {
            proof {
                lemma_word_spans_nonempty(s@.subrange(0, i as int));
            }
            let last = r.len() - 1;
            let start = r[last].0;
            r.set(last, (start, i + 1));
        } else {
            r.push((i, i + 1));
        }
        i = i + 1;
    }
    assert(s@.subrange(0, n as int) =~= s@);
    r
}

/// The first index at or after `i` that holds `c`, or the length of `w`.
pub open spec fn index_from(w: Seq<char>, i: int, c: char) -> int
    decreases w.len() - i,
{
    if 0 <= i < w.len() {
        if w[i] == c {
            i
        } else {
            index_from(w, i + 1, c)
        }
    } else {
        w.len() as int
    }
}

/// The chord of quality `q` (`M`, `m`, `7` or `o`) over `root`.
pub open spec fn chord_with(q: char, root: Note, over: Option<Note>) -> Option<Chord> {
    if q == 'M' {
        Some(Chord::Maj { root, over })
    } else if q == 'm' {
        Some(Chord::Min { root, over })
    } else if q == '7' {
        Some(Chord::Mm7 { root, over })
    } else if q == 'o' {
        Some(Chord::Dim { root, over })
    } else {
        None
    }
}

/// `r` reports the failed note token `w` of the specification `s`.
pub open spec fn reports_note(r: Result<Chord, ChordError>, s: Seq<char>, w: Seq<char>) -> bool {
    r matches Err(ChordError::InvNote(e, t)) && t@ == s && reports(e, note_of(w)->Err_0, w)
}

/// `r` is what the single word `w` of `s` gives: `[<bass>/]<root><quality>`,
/// where the bass must not lie above the root.
pub open spec fn single_chord(s: Seq<char>, w: Seq<char>, r: Result<Chord, ChordError>) -> bool {
    let k = index_from(w, 0, '/');
    let has_bass = k < w.len();
    let bass_text = w.subrange(0, k);
    let rest = if has_bass {
        w.subrange(k + 1, w.len() as int)
    } else {
        w
    };
    let root_text = rest.drop_last();
    if has_bass && bass_text.len() == 0 {
        r == Err::<Chord, ChordError>(ChordError::MissingOver)
    } else if has_bass && note_of(bass_text) is Err {
        reports_note(r, s, bass_text)
    } else if rest.len() == 0 {
        r == Err::<Chord, ChordError>(ChordError::MissingNotes)
    } else if note_of(root_text) is Err {
        reports_note(r, s, root_text)
    } else {
        let root = note_of(root_text)->Ok_0;
        let bass = note_of(bass_text)->Ok_0;
        let over = if has_bass {
            Some(bass)
        } else {
            None
        };
        if has_bass && bass.spec_pitch() > root.spec_pitch() {
            r matches Err(ChordError::InvRoot { root: ro, over: ov, parse }) && ro == root && ov
                == bass && parse@ == s
        } else {
            match chord_with(rest.last(), root, over) {
                Some(c) => r == Ok::<Chord, ChordError>(c),
                None => r matches Err(ChordError::InvChordType(q, t)) && q == rest.last() && t@
                    == s,
            }
        }
    }
}

/// `r` is what two or more words give: one note for each word, or the
/// report of the first word that is no note.
pub open spec fn custom_chord(s: Seq<char>, ws: Seq<Seq<char>>, r: Result<Chord, ChordError>) -> bool {
    match r {
        Ok(c) => c matches Chord::Custom(v) && v@.len() == ws.len() && forall|i: int|
            0 <= i < ws.len() ==> note_of(#[trigger] ws[i]) == Ok::<Note, NoteFault>(v@[i]),
        Err(_) => exists|i: int|
            0 <= i < ws.len() && (forall|j: int| 0 <= j < i ==> note_of(#[trigger] ws[j]) is Ok)
                && note_of(#[trigger] ws[i]) is Err && reports_note(r, s, ws[i]),
    }
}

/// `r` is what the chord specification `s` gives.
pub open spec fn chord_parse(s: Seq<char>, r: Result<Chord, ChordError>) -> bool {
    let ws = words(s);
    if ws.len() == 0 {
        r == Err::<Chord, ChordError>(ChordError::EmptyStr)
    } else if ws.len() == 1 {
        single_chord(s, ws[0], r)
    } else {
        custom_chord(s, ws, r)
    }
}

fn single_chord_of(s: &str, w: &str) -> (r: Result<Chord, ChordError>)
    ensures
        single_chord(s@, w@, r),
{
    let n = w.unicode_len();
    let mut k: usize = 0;
    while k < n && w.get_char(k) != '/'
        invariant
            k <= n,
            n == w@.len(),
            index_from(w@, 0, '/') == index_from(w@, k as int, '/'),
        decreases n - k,
    {
        k = k + 1;
    }
    let has_bass = k < n;
    let mut over: Option<Note> = None;
    if has_bass {
        if k == 0 {
            return Err(ChordError::MissingOver);
        }
        match Note::new(w.substring_char(0, k)) {
            Ok(b) => {
                over = Some(b);
            },
            Err(e) => {
                return Err(ChordError::InvNote(e, s.to_owned()));
            },
        }
    }
    let rest = if has_bass {
        w.substring_char(k + 1, n)
    } else {
        w
    };
    let m = rest.unicode_len();
    if m == 0 {
        return Err(ChordError::MissingNotes);
    }
    let root = match Note::new(rest.substring_char(0, m - 1)) {
        Ok(x) => x,
        Err(e) => {
            return Err(ChordError::InvNote(e, s.to_owned()));
        },
    };
    if let Some(b) = over {
        if b.pitch() > root.pitch() {
            return Err(ChordError::InvRoot { root, over: b, parse: s.to_owned() });
        }
    }
    match rest.get_char(m - 1) {
        'M' => Ok(Chord::Maj { root, over }),
        'm' => Ok(Chord::Min { root, over }),
        '7' => Ok(Chord::Mm7 { root, over }),
        'o' => Ok(Chord::Dim { root, over }),
        c => Err(ChordError::InvChordType(c, s.to_owned())),
    }
}

impl Chord {
    /// Reads a chord specification: two or more whitespace-separated note
    /// tokens, or one word `[<bass>/]<root><quality>` with quality `M` (major),
    /// `m` (minor), `7` (dominant seventh) or `o` (diminished).
    pub fn new(s: &str) -> (r: Result<Chord, ChordError>)
        ensures
            chord_parse(s@, r),
    {
        let spans = word_spans_of(s);
        if spans.len() == 0 {
            return Err(ChordError::EmptyStr);
        }
        if spans.len() == 1 {
            let w = s.substring_char(spans[0].0, spans[0].1);
            return single_chord_of(s, w);
        }
        let ghost ws = words(s@);
        let mut notes: Vec<Note> = Vec::new();
        let mut k: usize = 0;
        while k < spans.len()
            invariant
                k <= spans@.len(),
                spans@.len() >= 2,
                ws == words(s@),
                ws.len() == spans@.len(),
                forall|j: int|
                    0 <= j < spans@.len() ==> (#[trigger] spans@[j]).0 < spans@[j].1 <= s@.len() && ws[j]
                        == s@.subrange(spans@[j].0 as int, spans@[j].1 as int),
                notes@.len() == k,
                forall|j: int| 0 <= j < k ==> note_of(#[trigger] ws[j]) == Ok::<Note, NoteFault>(notes@[j]),
            decreases spans@.len() - k,
        {
            let w = s.substring_char(spans[k].0, spans[k].1);
            match Note::new(w) {
                Ok(x) => {
                    notes.push(x);
                },
                Err(e) => {
                    let r = Err(ChordError::InvNote(e, s.to_owned()));
                    assert(note_of(ws[k as int]) is Err);
                    assert(reports_note(r, s@, ws[k as int]));
                    assert(forall|j: int| 0 <= j < k ==> note_of(#[trigger] ws[j]) is Ok);
                    assert(custom_chord(s@, ws, r));
                    return r;
                },
            }
            k = k + 1;
        }
        Ok(Chord::Custom(notes))
    }
}


/// Semitones above the root that each quality adds.
pub open spec fn quality_intervals(c: Chord) -> Seq<int> {
    match c {
        Chord::Custom(_) => seq![],
        Chord::Maj { .. } => seq![4, 7],
        Chord::Min { .. } => seq![3, 7],
        Chord::Mm7 { .. } => seq![4, 7, 10],
        Chord::Dim { .. } => seq![3, 6],
    }
}

/// The bass (if any), the root, then the root raised by each of `ivs`.
pub open spec fn stacked_pitches(root: Note, over: Option<Note>, ivs: Seq<int>) -> Seq<int> {
    let head = match over {
        Some(o) => seq![o.spec_pitch()],
        None => Seq::empty(),
    };
    head.push(root.spec_pitch()) + Seq::new(ivs.len(), |i: int| root.spec_pitch() + ivs[i])
}

/// The pitches of a chord, in order: the literal notes; or the bass (if any),
/// the root, then the root raised by each interval of the quality.
pub open spec fn chord_pitches(c: Chord) -> Seq<int> {
    match c {
        Chord::Custom(v) => Seq::new(v@.len(), |i: int| v@[i].spec_pitch()),
        Chord::Maj { root, over } | Chord::Min { root, over } | Chord::Mm7 { root, over }
        | Chord::Dim { root, over } => stacked_pitches(root, over, quality_intervals(c)),
    }
}

/// Every pitch of `ps` is a MIDI note number.
pub open spec fn in_midi_range(ps: Seq<int>) -> bool {
    forall|i: int| 0 <= i < ps.len() ==> 0 <= #[trigger] ps[i] <= 127
}

/// `r` holds the notes `ps` at velocity `vel`, or the error that the first
/// note out of range gives.
pub open spec fn midi_notes_of(ps: Seq<int>, vel: u8, r: Result<Vec<MidiNote>, NoteError>) -> bool {
    if ps.len() == 0 || (vel <= 127 && in_midi_range(ps)) {
        r matches Ok(v) && v@.len() == ps.len() && forall|i: int|
            0 <= i < ps.len() ==> (#[trigger] v@[i]).n as int == ps[i] && v@[i].vel == vel
    } else if vel > 127 {
        r == Err::<Vec<MidiNote>, NoteError>(NoteError::InvMidiVel(vel))
    } else {
        r == Err::<Vec<MidiNote>, NoteError>(NoteError::InvMidiNote)
    }
}

/// `r` is what `to_midi_chord` gives for the pitches `ps` at `vel`.
pub open spec fn midi_chord_of(ps: Seq<int>, vel: u8, r: Result<Vec<MidiNote>, ChordError>) -> bool {
    match r {
        Ok(v) => midi_notes_of(ps, vel, Ok(v)),
        Err(e) => e matches ChordError::InvNote(ne, _) && midi_notes_of(ps, vel, Err(ne)),
    }
}

/// Relies on the `Debug` formatting that `derive` gives `Chord`, to name the chord in an error.
#[verifier::external_body]
fn chord_text(c: &Chord) -> String {
    format!("{c:?}")
}

fn notes_at(notes: &Vec<Note>, vel: u8) -> (r: Result<Vec<MidiNote>, NoteError>)
    ensures
        midi_notes_of(Seq::new(notes@.len(), |k: int| notes@[k].spec_pitch()), vel, r),
{
    let ghost ps = Seq::new(notes@.len(), |k: int| notes@[k].spec_pitch());
    let mut out: Vec<MidiNote> = Vec::new();
    let mut i: usize = 0;
    while i < notes.len()
        invariant
            i <= notes@.len(),
            ps == Seq::new(notes@.len(), |k: int| notes@[k].spec_pitch()),
            out@.len() == i,
            forall|j: int| 0 <= j < i ==> (#[trigger] out@[j]).n as int == ps[j],
            forall|j: int| 0 <= j < i ==> (#[trigger] out@[j]).vel == vel,
            forall|j: int| 0 <= j < i ==> 0 <= #[trigger] ps[j] <= 127,
            i > 0 ==> vel <= 127,
        decreases notes@.len() - i,
    {
        assert(ps[i as int] == notes@[i as int].spec_pitch());
        let m = match notes[i].to_midi(vel) {
            Ok(m) => m,
            Err(e) => {
                assert(vel <= 127 ==> !in_midi_range(ps));
                return Err(e);
            },
        };
        out.push(m);
        i = i + 1;
    }
    assert(in_midi_range(ps));
    Ok(out)
}

fn stacked_notes(root: &Note, over: &Option<Note>, intervals: &Vec<u8>, vel: u8) -> (r: Result<
    Vec<MidiNote>,
    NoteError,
>)
    ensures
        midi_notes_of(
            stacked_pitches(*root, *over, Seq::new(intervals@.len(), |i: int| intervals@[i] as int)),
            vel,
            r,
        ),
{
    let ghost ivs = Seq::new(intervals@.len(), |i: int| intervals@[i] as int);
    let ghost ps = stacked_pitches(*root, *over, ivs);
    let mut out: Vec<MidiNote> = Vec::new();
    if let Some(o) = over {
        assert(ps[0] == o.spec_pitch());
        match o.to_midi(vel) {
            Ok(m) => {
                out.push(m);
            },
            Err(e) => {
                return Err(e);
            },
        }
    }
    assert(ps[out@.len() as int] == root.spec_pitch());
    let base = match root.to_midi(vel) {
        Ok(m) => m,
        Err(e) => {
            return Err(e);
        },
    };
    out.push(base);
    let ghost head = out@.len();
    assert(head == ps.len() - ivs.len());
    let mut i: usize = 0;
    while i < intervals.len()
        invariant
            i <= intervals@.len(),
            ps == stacked_pitches(*root, *over, ivs),
            ivs == Seq::new(intervals@.len(), |i: int| intervals@[i] as int),
            head == ps.len() - ivs.len(),
            base.n as int == root.spec_pitch(),
            vel <= 127,
            out@.len() == head + i,
            forall|j: int| 0 <= j < head + i ==> (#[trigger] out@[j]).n as int == ps[j],
            forall|j: int| 0 <= j < head + i ==> (#[trigger] out@[j]).vel == vel,
            forall|j: int| 0 <= j < head + i ==> 0 <= #[trigger] ps[j] <= 127,
        decreases intervals@.len() - i,
    {
        assert(ps[head + i] == root.spec_pitch() + ivs[i as int]);
        match MidiNote::new(base.n as i32 + intervals[i] as i32, vel) {
            Ok(m) => {
                out.push(m);
            },
            Err(e) => {
                return Err(e);
            },
        }
        i = i + 1;
    }
    assert(in_midi_range(ps));
    Ok(out)
}

/// The intervals of a chord's quality, as a vector.
fn intervals_of(c: &Chord) -> (r: Vec<u8>)
    ensures
        Seq::new(r@.len(), |i: int| r@[i] as int) == quality_intervals(*c),
{
    let mut r: Vec<u8> = Vec::new();
    match c {
        Chord::Custom(_) => {},
        Chord::Maj { .. } => {
            r.push(4);
            r.push(7);
        },
        Chord::Min { .. } => {
            r.push(3);
            r.push(7);
        },
        Chord::Mm7 { .. } => {
            r.push(4);
            r.push(7);
            r.push(10);
        },
        Chord::Dim { .. } => {
            r.push(3);
            r.push(6);
        },
    }
    assert(Seq::new(r@.len(), |i: int| r@[i] as int) =~= quality_intervals(*c));
    r
}

impl Chord {
    /// The MIDI notes of the chord at velocity `vel`, in the order of `chord_pitches`.
    pub fn to_midi_chord(&self, vel: u8) -> (r: Result<Vec<MidiNote>, ChordError>)
        ensures
            midi_chord_of(chord_pitches(*self), vel, r),
    {
        let notes = match self {
            Chord::Custom(v) => notes_at(v, vel),
            Chord::Maj { root, over } | Chord::Min { root, over } | Chord::Mm7 { root, over }
            | Chord::Dim { root, over } => stacked_notes(root, over, &intervals_of(self), vel),
        };
        match notes {
            Ok(v) => Ok(v),
            Err(e) => Err(ChordError::InvNote(e, chord_text(self))),
        }
    }
}

/// A chord specification has one outcome: it cannot both succeed and fail,
/// and every chord it can give has the same pitches.
pub proof fn lemma_chord_parse_unique(s: Seq<char>, r1: Result<Chord, ChordError>, r2: Result<Chord, ChordError>)
    requires
        chord_parse(s, r1),
        chord_parse(s, r2),
    ensures
        r1 is Ok <==> r2 is Ok,
        r1 is Ok && r2 is Ok ==> chord_pitches(r1->Ok_0) == chord_pitches(r2->Ok_0),
{
    let ws = words(s);
    if ws.len() >= 2 {
        if r1 is Ok && r2 is Ok {
            let v1 = r1->Ok_0->Custom_0;
            let v2 = r2->Ok_0->Custom_0;
            assert forall|i: int| 0 <= i < v1@.len() implies v1@[i] == v2@[i] by {
                assert(note_of(ws[i]) == Ok::<Note, NoteFault>(v1@[i]));
                assert(note_of(ws[i]) == Ok::<Note, NoteFault>(v2@[i]));
            }
            assert(v1@ =~= v2@);
            assert(chord_pitches(r1->Ok_0) =~= chord_pitches(r2->Ok_0));
        }
        if r1 is Ok && r2 is Err {
            let v1 = r1->Ok_0->Custom_0;
            let i = choose|i: int|
                0 <= i < ws.len() && (forall|j: int| 0 <= j < i ==> note_of(#[trigger] ws[j]) is Ok)
                    && note_of(#[trigger] ws[i]) is Err && reports_note(r2, s, ws[i]);
            assert(note_of(ws[i]) == Ok::<Note, NoteFault>(v1@[i]));
        }
        if r2 is Ok && r1 is Err {
            let v2 = r2->Ok_0->Custom_0;
            let i = choose|i: int|
                0 <= i < ws.len() && (forall|j: int| 0 <= j < i ==> note_of(#[trigger] ws[j]) is Ok)
                    && note_of(#[trigger] ws[i]) is Err && reports_note(r1, s, ws[i]);
            assert(note_of(ws[i]) == Ok::<Note, NoteFault>(v2@[i]));
        }
    }
}

/// Every token that reads as a note has the pitch
/// `(octave + 1) * 12 + letter offset + accidental sum`, with the letter
/// offsets C 0, D 2, E 4, F 5, G 7, A 9, B 11.
pub proof fn lemma_note_pitch(s: Seq<char>)
    requires
        note_of(s) is Ok,
    ensures
        ({
            let n = note_of(s)->Ok_0;
            let octave = i8_text(s.subrange(1 + accidental_run(s) as int, s.len() as int))->Some_0;
            n.spec_pitch() == (octave + 1) * 12 + letter_of(s[0])->Some_0.offset() + accidental_sum(s)
        }),
{
}

} // verus!
