use accordion_of_bodge::{
    clean, parse_aliases, parse_to_kmap_and_toggles, resolve_key, same_text, trim, AliasTable,
    ChordError, ConfigError, MidiNote, NoteError,
};

fn cells(v: &[&str]) -> Vec<String> {
    v.iter().map(|s| s.to_string()).collect()
}

#[test]
fn trimming_and_blank_cells() {
    assert_eq!(trim("  C4M\t"), "C4M");
    assert_eq!(trim(" \u{3000} "), "");
    assert_eq!(trim("a b"), "a b");
    assert_eq!(clean(&cells(&["", " x ", "\n", "y"])), vec!["x", "y"]);
    assert!(same_text("TOGGLE", "TOGGLE"));
    assert!(!same_text("TOGGLE", "TOGGL"));
}

#[test]
fn key_cells_resolve_through_aliases_then_codes() {
    let mut a = AliasTable::new();
    a.insert("SPACE", 32);
    assert_eq!(resolve_key(&a, "SPACE"), Some(32));
    assert_eq!(resolve_key(&a, "+17"), Some(17));
    assert_eq!(resolve_key(&a, "65535"), Some(65535));
    assert_eq!(resolve_key(&a, "65536"), None);
    assert_eq!(resolve_key(&a, "-1"), None);
    assert_eq!(resolve_key(&a, "SPAC"), None);
}

#[test]
fn keymap_records() {
    let a = AliasTable::new();
    let m = parse_to_kmap_and_toggles(&cells(&["C4 E4", "5", "+7", "", "TOGGLE", "6", "D4m", "5", "1"]), &a)
        .unwrap();
    assert_eq!(m.len(), 3);
    match m.get(5) {
        Some(Some(v)) => assert_eq!(v, &vec![MidiNote { n: 62, vel: 1 }, MidiNote { n: 65, vel: 1 }, MidiNote { n: 69, vel: 1 }]),
        _ => panic!("the later record of key 5 wins"),
    }
    assert!(matches!(m.get(6), Some(None)));
    assert!(m.get(7).is_none());
    assert_eq!(parse_to_kmap_and_toggles(&cells(&[]), &a).unwrap().len(), 0);
}

#[test]
fn keymap_errors() {
    let a = AliasTable::new();
    let bad_key = parse_to_kmap_and_toggles(&cells(&["C4M", "nokey", "100"]), &a);
    assert!(matches!(bad_key, Err(ConfigError::InvKeyName(s)) if s == "nokey"));
    let bad_vel = parse_to_kmap_and_toggles(&cells(&["C4M", "3", "loud"]), &a);
    assert!(matches!(bad_vel, Err(ConfigError::InvVelocity(s)) if s == "loud"));
    let big_vel = parse_to_kmap_and_toggles(&cells(&["C4M", "3", "256"]), &a);
    assert!(matches!(big_vel, Err(ConfigError::InvVelocity(_))));
    let vel_out_of_midi = parse_to_kmap_and_toggles(&cells(&["C4M", "3", "200"]), &a);
    assert!(matches!(vel_out_of_midi, Err(ConfigError::InvChord(ChordError::InvNote(NoteError::InvMidiVel(200), _)))));
    let bad_chord = parse_to_kmap_and_toggles(&cells(&["C4q", "3", "100"]), &a);
    assert!(matches!(bad_chord, Err(ConfigError::InvChord(ChordError::InvChordType('q', _)))));
    let no_key = parse_to_kmap_and_toggles(&cells(&["C4M", "3", "100", "D4M"]), &a);
    assert!(matches!(no_key, Err(ConfigError::NoKey(s)) if s == "D4M"));
    let no_vel = parse_to_kmap_and_toggles(&cells(&["C4M", "3"]), &a);
    assert!(matches!(no_vel, Err(ConfigError::NoVel(c, k)) if c == "C4M" && k == "3"));
    let first_fault_wins = parse_to_kmap_and_toggles(&cells(&["C4M", "bad", "x"]), &a);
    assert!(matches!(first_fault_wins, Err(ConfigError::InvKeyName(_))));
}

#[test]
fn alias_errors() {
    assert!(matches!(parse_aliases(&cells(&["A", "x"])), Err(ConfigError::InvAliasCode(s)) if s == "x"));
    assert!(matches!(parse_aliases(&cells(&["A", "1", "B"])), Err(ConfigError::NoAliasCode(s)) if s == "B"));
    assert!(parse_aliases(&cells(&[])).is_ok());
}
