//! Human-readable texts of the chord and note errors.
use vstd::prelude::*;
use std::num::ParseIntError;
use crate::chord::{ChordError, Note, NoteError, NoteLetter};

verus! {

/// The decimal digit `d`.
pub open spec fn digit_char(d: int) -> char {
    if d == 0 {
        '0'
    } else if d == 1 {
        '1'
    } else if d == 2 {
        '2'
    } else if d == 3 {
        '3'
    } else if d == 4 {
        '4'
    } else if d == 5 {
        '5'
    } else if d == 6 {
        '6'
    } else if d == 7 {
        '7'
    } else if d == 8 {
        '8'
    } else {
        '9'
    }
}

/// `n` in decimal, without leading zeros.
pub open spec fn decimal(n: nat) -> Seq<char>
    decreases n,
{
    if n < 10 {
        seq![digit_char(n as int)]
    } else {
        decimal(n / 10).push(digit_char(n as int % 10))
    }
}

/// `n` in decimal, with a leading `-` when negative.
pub open spec fn signed_decimal(n: int) -> Seq<char> {
    if n < 0 {
        seq!['-'] + decimal((-n) as nat)
    } else {
        decimal(n as nat)
    }
}

/// The letter of a note letter.
pub open spec fn letter_char(l: NoteLetter) -> char {
    match l {
        NoteLetter::C => 'C',
        NoteLetter::D => 'D',
        NoteLetter::E => 'E',
        NoteLetter::F => 'F',
        NoteLetter::G => 'G',
        NoteLetter::A => 'A',
        NoteLetter::B => 'B',
    }
}

/// A note as its token: letter, accidentals, octave.
pub open spec fn note_text(n: Note) -> Seq<char> {
    let acc = n.accidental as int;
    let signs = if acc >= 0 {
        Seq::new(acc as nat, |i: int| '#')
    } else {
        Seq::new((-acc) as nat, |i: int| 'b')
    };
    seq![letter_char(n.note)] + signs + signed_decimal(n.octave as int)
}

fn digit_str(d: u32) -> (r: &'static str)
    requires
        d < 10,
    ensures
        r@ == seq![digit_char(d as int)],
{
    proof {
        reveal_strlit("0");
        reveal_strlit("1");
        reveal_strlit("2");
        reveal_strlit("3");
        reveal_strlit("4");
        reveal_strlit("5");
        reveal_strlit("6");
        reveal_strlit("7");
        reveal_strlit("8");
        reveal_strlit("9");
    }
    match d {
        0 => "0",
        1 => "1",
        2 => "2",
        3 => "3",
        4 => "4",
        5 => "5",
        6 => "6",
        7 => "7",
        8 => "8",
        _ => "9",
    }
}

/// Appends `n` in decimal.
fn push_decimal(s: &mut String, n: u32)
    ensures
        final(s)@ == old(s)@ + decimal(n as nat),
    decreases n,
{
    if n >= 10 {
        push_decimal(s, n / 10);
    }
    s.append(digit_str(n % 10));
    assert(final(s)@ =~= old(s)@ + decimal(n as nat));
}

/// Appends `n` in decimal, with a leading `-` when negative.
fn push_signed(s: &mut String, n: i32)
    ensures
        final(s)@ == old(s)@ + signed_decimal(n as int),
{
    if n < 0 {
        proof {
            reveal_strlit("-");
        }
        s.append("-");
        push_decimal(s, (-(n as i64)) as u32);
        assert(final(s)@ =~= old(s)@ + signed_decimal(n as int));
    } else {
        push_decimal(s, n as u32);
    }
}

/// Appends the token of a note.
fn push_note(s: &mut String, n: &Note)
    ensures
        final(s)@ == old(s)@ + note_text(*n),
{
    proof {
        reveal_strlit("A");
        reveal_strlit("B");
        reveal_strlit("C");
        reveal_strlit("D");
        reveal_strlit("E");
        reveal_strlit("F");
        reveal_strlit("G");
        reveal_strlit("#");
        reveal_strlit("b");
    }
    let letter = match n.note {
        NoteLetter::C => "C",
        NoteLetter::D => "D",
        NoteLetter::E => "E",
        NoteLetter::F => "F",
        NoteLetter::G => "G",
        NoteLetter::A => "A",
        NoteLetter::B => "B",
    };
    s.append(letter);
    let ghost head = s@;
    let sign = if n.accidental >= 0 {
        "#"
    } else {
        "b"
    };
    let count: i32 = if n.accidental >= 0 {
        n.accidental as i32
    } else {
        -(n.accidental as i32)
    };
    let mut k: i32 = 0;
    while k < count
        invariant
            0 <= k <= count,
            sign@ == seq![if n.accidental >= 0 { '#' } else { 'b' }],
            s@ == head + Seq::new(k as nat, |i: int| if n.accidental >= 0 { '#' } else { 'b' }),
        decreases count - k,
    {
        s.append(sign);
        k = k + 1;
        assert(s@ =~= head + Seq::new(k as nat, |i: int| if n.accidental >= 0 { '#' } else { 'b' }));
    }
    push_signed(s, n.octave as i32);
    assert(final(s)@ =~= old(s)@ + note_text(*n));
}

/// Relies on `char::to_string`: a string of that one character.
#[verifier::external_body]
fn char_string(c: char) -> (r: String)
    ensures
        r@ == seq![c],
{
    c.to_string()
}

/// Relies on `ParseIntError`'s `Display`: why a number did not parse.
#[verifier::external_body]
fn parse_error_text(e: &ParseIntError) -> String {
    e.to_string()
}

/// The text of a note error; for an octave that did not parse, the middle
/// part is what the number parser says.
pub open spec fn note_message(e: NoteError, r: Seq<char>) -> bool {
    match e {
        NoteError::EmptyStr => r == "could not create Note from empty string or whitespace"@,
        NoteError::InvNoteLetter(s) => r == "could not create Note, invalid NoteLetter of '"@ + s@ + "'"@,
        NoteError::MissingOctave(s) => r == "could not create Note, missing Octave value in '"@ + s@
            + "'"@,
        NoteError::InvOctave(_, s) => exists|why: Seq<char>|
            r == "could not create Note, invalid Octave, "@ + why + ", in '"@ + s@ + "'"@,
        NoteError::InvMidiVel(v) => r == "could not create MidiNote from Note, vel:"@ + decimal(
            v as nat,
        ) + " > 127"@,
        NoteError::InvMidiNote => r == "could not create MidiNote from Note, note value < 0 or > 127"@,
    }
}

/// The text of a chord error.
pub open spec fn chord_message(e: ChordError, r: Seq<char>) -> bool {
    match e {
        ChordError::EmptyStr => r == "could not create Chord from empty string or whitespace"@,
        ChordError::InvNote(ne, s) => exists|why: Seq<char>|
            note_message(ne, why) && r == "could not create chord, "@ + why + ", in '"@ + s@ + "'"@,
        ChordError::MissingNotes => r == "could not create Chord, no notes"@,
        ChordError::MissingOver => r == "could not create Chord, '/' present but no note"@,
        ChordError::InvChordType(c, s) => r == "could not create Chord, '"@ + seq![c]
            + "' not a valid chord type in '"@ + s@ + "'"@,
        ChordError::InvRoot { root, over, parse } => r == "could not create Chord, bass "@
            + note_text(over) + " is higher than root "@ + note_text(root) + " in '"@ + parse@
            + "'"@,
    }
}

impl NoteError {
    /// What went wrong, in words.
    pub fn message(&self) -> (r: String)
        ensures
            note_message(*self, r@),
    {
        match self {
            NoteError::EmptyStr => String::from_str("could not create Note from empty string or whitespace"),
            NoteError::InvNoteLetter(s) => {
                let mut r = String::from_str("could not create Note, invalid NoteLetter of '");
                r.append(s.as_str());
                r.append("'");
                r
            },
            NoteError::MissingOctave(s) => {
                let mut r = String::from_str("could not create Note, missing Octave value in '");
                r.append(s.as_str());
                r.append("'");
                r
            },
            NoteError::InvOctave(e, s) => {
                let mut r = String::from_str("could not create Note, invalid Octave, ");
                let why = parse_error_text(e);
                r.append(why.as_str());
                r.append(", in '");
                r.append(s.as_str());
                r.append("'");
                assert(r@ == "could not create Note, invalid Octave, "@ + why@ + ", in '"@ + s@ + "'"@);
                r
            },
            NoteError::InvMidiVel(v) => {
                let mut r = String::from_str("could not create MidiNote from Note, vel:");
                push_decimal(&mut r, *v as u32);
                r.append(" > 127");
                r
            },
            NoteError::InvMidiNote => String::from_str(
                "could not create MidiNote from Note, note value < 0 or > 127",
            ),
        }
    }
}

impl ChordError {
    /// What went wrong, in words.
    pub fn message(&self) -> (r: String)
        ensures
            chord_message(*self, r@),
    {
        match self {
            ChordError::EmptyStr => String::from_str("could not create Chord from empty string or whitespace"),
            ChordError::InvNote(e, s) => {
                let mut r = String::from_str("could not create chord, ");
                let why = e.message();
                r.append(why.as_str());
                r.append(", in '");
                r.append(s.as_str());
                r.append("'");
                assert(r@ == "could not create chord, "@ + why@ + ", in '"@ + s@ + "'"@);
                r
            },
            ChordError::MissingNotes => String::from_str("could not create Chord, no notes"),
            ChordError::MissingOver => String::from_str("could not create Chord, '/' present but no note"),
            ChordError::InvChordType(c, s) => {
                let mut r = String::from_str("could not create Chord, '");
                let cs = char_string(*c);
                r.append(cs.as_str());
                r.append("' not a valid chord type in '");
                r.append(s.as_str());
                r.append("'");
                r
            },
            ChordError::InvRoot { root, over, parse } => {
                let mut r = String::from_str("could not create Chord, bass ");
                push_note(&mut r, over);
                r.append(" is higher than root ");
                push_note(&mut r, root);
                r.append(" in '");
                r.append(parse.as_str());
                r.append("'");
                r
            },
        }
    }
}

} // verus!
