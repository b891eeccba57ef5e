use accordion_of_bodge::{Chord, ChordError, MidiNote, Note, NoteError, NoteLetter};

fn midi(n: u8, vel: u8) -> MidiNote {
    MidiNote { n, vel }
}

fn pitch_of(s: &str) -> i32 {
    Note::new(s).unwrap().pitch()
}

#[test]
fn note_pitches_follow_the_formula() {
    assert_eq!(pitch_of("C4"), 60);
    assert_eq!(pitch_of("C#4"), 61);
    assert_eq!(pitch_of("Db4"), 61);
    assert_eq!(pitch_of("A0"), 21);
    assert_eq!(pitch_of("C-1"), 0);
    assert_eq!(pitch_of("G9"), 127);
    assert_eq!(pitch_of("B##3"), 61);
    assert_eq!(pitch_of("Ebb+4"), 62);
}

#[test]
fn note_fields() {
    let n = Note::new("F#-2").unwrap();
    assert_eq!(n.note, NoteLetter::F);
    assert_eq!(n.accidental, 1);
    assert_eq!(n.octave, -2);
}

#[test]
fn note_errors() {
    assert!(matches!(Note::new(""), Err(NoteError::EmptyStr)));
    assert!(matches!(Note::new("H4"), Err(NoteError::InvNoteLetter(s)) if s == "H4"));
    assert!(matches!(Note::new("C"), Err(NoteError::MissingOctave(s)) if s == "C"));
    assert!(matches!(Note::new("C#"), Err(NoteError::MissingOctave(s)) if s == "C#"));
    assert!(matches!(Note::new("C#b4"), Err(NoteError::InvOctave(_, s)) if s == "C#b4"));
    assert!(matches!(Note::new("C4M"), Err(NoteError::InvOctave(_, _))));
    assert!(matches!(Note::new("C200"), Err(NoteError::InvOctave(_, _))));
    let many_sharps = format!("C{}4", "#".repeat(128));
    assert!(matches!(Note::new(&many_sharps), Err(NoteError::InvMidiNote)));
    let sharps = format!("C{}-1", "#".repeat(127));
    assert_eq!(Note::new(&sharps).unwrap().pitch(), 127);
}

#[test]
fn midi_note_range() {
    assert_eq!(MidiNote::new(60, 100).unwrap(), midi(60, 100));
    assert!(matches!(MidiNote::new(60, 128), Err(NoteError::InvMidiVel(128))));
    assert!(matches!(MidiNote::new(-1, 100), Err(NoteError::InvMidiNote)));
    assert!(matches!(MidiNote::new(128, 100), Err(NoteError::InvMidiNote)));
    assert!(matches!(MidiNote::new(500, 200), Err(NoteError::InvMidiVel(200))));
}

#[test]
fn major_triad() {
    let notes = Chord::new("C4M").unwrap().to_midi_chord(100).unwrap();
    assert_eq!(notes, vec![midi(60, 100), midi(64, 100), midi(67, 100)]);
}

#[test]
fn bass_before_root_before_intervals() {
    let notes = Chord::new("G3/C4M").unwrap().to_midi_chord(100).unwrap();
    assert_eq!(notes, vec![midi(55, 100), midi(60, 100), midi(64, 100), midi(67, 100)]);
}

#[test]
fn bass_above_root_is_rejected() {
    match Chord::new("D4/C4M") {
        Err(ChordError::InvRoot { root, over, parse }) => {
            assert_eq!(root.pitch(), 60);
            assert_eq!(over.pitch(), 62);
            assert_eq!(parse, "D4/C4M");
        },
        _ => panic!("a bass above the root must be rejected"),
    }
}

#[test]
fn bass_below_root_is_accepted() {
    let notes = Chord::new("C4/D4M").unwrap().to_midi_chord(90).unwrap();
    assert_eq!(notes, vec![midi(60, 90), midi(62, 90), midi(66, 90), midi(69, 90)]);
}

#[test]
fn other_qualities() {
    let minor = Chord::new("A3m").unwrap().to_midi_chord(1).unwrap();
    assert_eq!(minor, vec![midi(57, 1), midi(60, 1), midi(64, 1)]);
    let seventh = Chord::new("G37").unwrap().to_midi_chord(2).unwrap();
    assert_eq!(seventh, vec![midi(55, 2), midi(59, 2), midi(62, 2), midi(65, 2)]);
    let dim = Chord::new("B3o").unwrap().to_midi_chord(3).unwrap();
    assert_eq!(dim, vec![midi(59, 3), midi(62, 3), midi(65, 3)]);
}

#[test]
fn custom_chord_keeps_token_order() {
    let c = Chord::new("  E4 C4\tG4 ").unwrap();
    assert!(matches!(&c, Chord::Custom(v) if v.len() == 3));
    let notes = c.to_midi_chord(64).unwrap();
    assert_eq!(notes, vec![midi(64, 64), midi(60, 64), midi(67, 64)]);
}

#[test]
fn chord_errors() {
    assert!(matches!(Chord::new(""), Err(ChordError::EmptyStr)));
    assert!(matches!(Chord::new(" \t "), Err(ChordError::EmptyStr)));
    assert!(matches!(Chord::new("/C4M"), Err(ChordError::MissingOver)));
    assert!(matches!(Chord::new("G3/"), Err(ChordError::MissingNotes)));
    assert!(matches!(Chord::new("C4x"), Err(ChordError::InvChordType('x', s)) if s == "C4x"));
    assert!(matches!(Chord::new("C4"), Err(ChordError::InvNote(NoteError::MissingOctave(_), _))));
    assert!(matches!(
        Chord::new("C4 X4"),
        Err(ChordError::InvNote(NoteError::InvNoteLetter(n), s)) if n == "X4" && s == "C4 X4"
    ));
    assert!(matches!(Chord::new("Q3/C4M"), Err(ChordError::InvNote(NoteError::InvNoteLetter(_), _))));
}

#[test]
fn midi_range_errors() {
    let high = Chord::new("G9M").unwrap();
    assert!(matches!(high.to_midi_chord(100), Err(ChordError::InvNote(NoteError::InvMidiNote, _))));
    let c = Chord::new("C4M").unwrap();
    match c.to_midi_chord(200) {
        Err(ChordError::InvNote(NoteError::InvMidiVel(200), text)) => assert!(text.contains("Maj")),
        _ => panic!("velocity 200 is out of range"),
    }
    let low = Chord::new("C-1 Cb-1").unwrap();
    assert!(matches!(low.to_midi_chord(1), Err(ChordError::InvNote(NoteError::InvMidiNote, _))));
}

#[test]
fn error_messages() {
    assert_eq!(
        NoteError::InvMidiVel(200).message(),
        "could not create MidiNote from Note, vel:200 > 127"
    );
    assert_eq!(
        NoteError::InvNoteLetter("H4".to_string()).message(),
        "could not create Note, invalid NoteLetter of 'H4'"
    );
    let octave = Note::new("Cx").unwrap_err().message();
    assert!(octave.starts_with("could not create Note, invalid Octave, "));
    assert!(octave.ends_with(", in 'Cx'"));
    assert_eq!(
        Chord::new("D4/Cb-1M").unwrap_err().message(),
        "could not create Chord, bass D4 is higher than root Cb-1 in 'D4/Cb-1M'"
    );
    assert_eq!(
        Chord::new("C##4x").unwrap_err().message(),
        "could not create Chord, 'x' not a valid chord type in 'C##4x'"
    );
    assert_eq!(
        Chord::new("C4 E").unwrap_err().message(),
        "could not create chord, could not create Note, missing Octave value in 'E', in 'C4 E'"
    );
    assert_eq!(ChordError::MissingNotes.message(), "could not create Chord, no notes");
}
