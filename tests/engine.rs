use accordion_of_bodge::{
    blocks_message, hook_event, key_dir_of_message, ll_hook_event, win32_string, WM_INPUT, WM_KEYDOWN,
    WM_KEYUP, WM_SYSKEYDOWN, WM_SYSKEYUP, parse_aliases, parse_to_kmap_and_toggles, AliasTable, DeviceId, Engine, EventLog,
    KDir, KeyEvent, MidiHandler, MidiMsg, MidiNote, SlotMap, SuppressionMode, NOTE_OFF_MSG,
    NOTE_ON_MSG,
};

fn cells(v: &[&str]) -> Vec<String> {
    v.iter().map(|s| s.to_string()).collect()
}

fn ev(device: u64, key: u16, dir: KDir) -> KeyEvent {
    KeyEvent { device: DeviceId(device), key, dir }
}

fn on(n: u8, vel: u8) -> MidiMsg {
    MidiMsg { status: NOTE_ON_MSG, n, vel }
}

fn off(n: u8, vel: u8) -> MidiMsg {
    MidiMsg { status: NOTE_OFF_MSG, n, vel }
}

/// Keys 1 and 2 play C4M and F3M, which share pitch 60; key 9 toggles.
fn slot() -> SlotMap {
    let aliases = AliasTable::new();
    parse_to_kmap_and_toggles(&cells(&["C4M", "1", "100", "F3M", "2", "90", "TOGGLE", "9"]), &aliases)
        .unwrap()
}

fn bound_engine() -> Engine {
    let mut e = Engine::new(vec![slot()], 16);
    assert!(e.on_device_event(ev(7, 30, KDir::Down)).is_empty());
    assert!(e.is_full());
    e
}

#[test]
fn shared_pitch_sounds_once() {
    let mut e = bound_engine();
    let a = e.on_device_event(ev(7, 1, KDir::Down));
    assert_eq!(a, vec![on(60, 100), on(64, 100), on(67, 100)]);
    let b = e.on_device_event(ev(7, 2, KDir::Down));
    assert_eq!(b, vec![on(53, 90), on(57, 90)]);
    let ra = e.on_device_event(ev(7, 1, KDir::Up));
    assert_eq!(ra, vec![off(64, 100), off(67, 100)]);
    let rb = e.on_device_event(ev(7, 2, KDir::Up));
    assert_eq!(rb, vec![off(53, 90), off(57, 90), off(60, 90)]);
}

#[test]
fn shared_pitch_on_the_dispatch_engine() {
    let mut m = MidiHandler::new();
    m.insert_key(DeviceId(1), 10);
    m.insert_key(DeviceId(1), 11);
    let a = vec![MidiNote { n: 60, vel: 100 }];
    let b = vec![MidiNote { n: 60, vel: 80 }];
    assert_eq!(m.process_msg(ev(1, 10, KDir::Down), &a), vec![on(60, 100)]);
    assert!(m.process_msg(ev(1, 11, KDir::Down), &b).is_empty());
    assert!(m.process_msg(ev(1, 10, KDir::Up), &a).is_empty());
    assert_eq!(m.process_msg(ev(1, 11, KDir::Up), &b), vec![off(60, 80)]);
}

#[test]
fn repeated_press_is_dropped() {
    let mut e = bound_engine();
    assert_eq!(e.on_device_event(ev(7, 1, KDir::Down)).len(), 3);
    assert!(e.on_device_event(ev(7, 1, KDir::Down)).is_empty());
    assert_eq!(e.on_device_event(ev(7, 1, KDir::Up)).len(), 3);
    assert!(e.on_device_event(ev(7, 1, KDir::Up)).is_empty());
}

#[test]
fn untracked_key_is_ignored() {
    let mut m = MidiHandler::new();
    let a = vec![MidiNote { n: 60, vel: 100 }];
    assert!(m.process_msg(ev(1, 10, KDir::Down), &a).is_empty());
}

#[test]
fn play_and_release_count_pitches() {
    let mut m = MidiHandler::new();
    let a = vec![MidiNote { n: 60, vel: 100 }, MidiNote { n: 60, vel: 100 }];
    assert_eq!(m.play(&a), vec![on(60, 100)]);
    assert!(m.release(&vec![MidiNote { n: 60, vel: 1 }]).is_empty());
    assert_eq!(m.release(&vec![MidiNote { n: 60, vel: 1 }]), vec![off(60, 1)]);
    assert!(m.release(&vec![MidiNote { n: 60, vel: 1 }]).is_empty());
}

#[test]
fn overwritten_event_cannot_be_matched() {
    let mut log = EventLog::new(3);
    log.push(ev(1, 10, KDir::Down));
    log.push(ev(2, 11, KDir::Down));
    log.push(ev(3, 12, KDir::Down));
    log.push(ev(4, 13, KDir::Down));
    assert_eq!(log.rec_from_hook_msg_in_logs(3, 10, KDir::Down), None);
    assert_eq!(log.rec_from_hook_msg_in_logs(3, 11, KDir::Down), Some(ev(2, 11, KDir::Down)));
    assert_eq!(log.newest(0), Some(ev(4, 13, KDir::Down)));
}

#[test]
fn correlation_prefers_newest_and_consumes() {
    let mut log = EventLog::new(4);
    log.push(ev(1, 10, KDir::Down));
    log.push(ev(2, 10, KDir::Down));
    assert_eq!(log.rec_from_hook_msg_in_logs(4, 10, KDir::Down), Some(ev(2, 10, KDir::Down)));
    assert_eq!(log.rec_from_hook_msg_in_logs(4, 10, KDir::Down), Some(ev(1, 10, KDir::Down)));
    assert_eq!(log.rec_from_hook_msg_in_logs(4, 10, KDir::Down), None);
    assert_eq!(log.rec_from_hook_msg_in_logs(4, 10, KDir::Up), None);
}

#[test]
fn drained_events_are_searched_only() {
    let mut log = EventLog::new(4);
    log.push(ev(1, 10, KDir::Down));
    let drained = vec![ev(2, 11, KDir::Down), ev(3, 12, KDir::Up)];
    assert_eq!(log.rec_from_drained(&drained, 10, KDir::Down), None);
    assert_eq!(log.rec_from_drained(&vec![ev(5, 10, KDir::Down)], 10, KDir::Down), Some(ev(5, 10, KDir::Down)));
    assert_eq!(log.rec_from_hook_msg_in_logs(4, 12, KDir::Up), Some(ev(3, 12, KDir::Up)));
}

#[test]
fn engine_correlates_through_its_log() {
    let mut e = bound_engine();
    e.on_device_event(ev(7, 1, KDir::Down));
    let rec = e.correlate(1, KDir::Down);
    assert_eq!(rec, Some(ev(7, 1, KDir::Down)));
    assert!(e.should_kill(rec));
    assert_eq!(e.correlate(1, KDir::Down), None);
    let late = e.correlate_drained(&vec![ev(7, 2, KDir::Up)], 2, KDir::Up);
    assert_eq!(late, Some(ev(7, 2, KDir::Up)));
}

#[test]
fn devices_bind_in_order_of_first_press() {
    let mut e = Engine::new(vec![slot(), slot(), slot()], 8);
    e.on_device_event(ev(10, 1, KDir::Down));
    e.on_device_event(ev(10, 2, KDir::Down));
    e.on_device_event(ev(20, 1, KDir::Up));
    assert_eq!(e.bound_device(1), None);
    e.on_device_event(ev(20, 1, KDir::Down));
    assert!(!e.is_full());
    assert_eq!(e.mode_now(), SuppressionMode::KillAll);
    e.on_device_event(ev(30, 5, KDir::Down));
    assert!(e.is_full());
    assert_eq!(e.mode_now(), SuppressionMode::PassThrough);
    e.on_device_event(ev(40, 5, KDir::Down));
    assert_eq!(e.bound_device(0), Some(DeviceId(10)));
    assert_eq!(e.bound_device(1), Some(DeviceId(20)));
    assert_eq!(e.bound_device(2), Some(DeviceId(30)));
    assert_eq!(e.bound_device(3), None);
}

#[test]
fn suppression_follows_the_mode() {
    let mut e = Engine::new(vec![slot()], 16);
    assert!(e.should_kill(None));
    assert!(e.should_kill(Some(ev(99, 1, KDir::Down))));
    e.on_device_event(ev(7, 30, KDir::Down));
    assert!(e.should_kill(Some(ev(7, 1, KDir::Down))));
    assert!(!e.should_kill(Some(ev(7, 30, KDir::Down))));
    assert!(!e.should_kill(Some(ev(8, 1, KDir::Down))));
    assert!(!e.should_kill(None));
    assert!(e.should_kill(Some(ev(7, 9, KDir::Down))));
    e.on_device_event(ev(7, 9, KDir::Down));
    assert_eq!(e.mode_now(), SuppressionMode::ProcessNone);
    assert!(e.should_kill(Some(ev(7, 9, KDir::Up))));
    assert!(!e.should_kill(Some(ev(7, 1, KDir::Down))));
    assert!(e.on_device_event(ev(7, 1, KDir::Down)).is_empty());
    e.on_device_event(ev(7, 9, KDir::Down));
    assert_eq!(e.mode_now(), SuppressionMode::ProcessNone);
    e.on_device_event(ev(7, 9, KDir::Up));
    e.on_device_event(ev(7, 9, KDir::Down));
    assert_eq!(e.mode_now(), SuppressionMode::PassThrough);
}

#[test]
fn hook_messages_decode() {
    assert_eq!(hook_event(65, 0), Some((65, KDir::Down)));
    assert_eq!(hook_event(65, 0x8000_0000), Some((65, KDir::Up)));
    assert_eq!(hook_event(65, 0xC001_0001), Some((65, KDir::Up)));
    assert_eq!(hook_event(70_000, 0), None);
}

#[test]
fn aliases_feed_the_keymap() {
    let aliases = parse_aliases(&cells(&["A", "65", " ", "B", "66", "A", "67"])).unwrap();
    assert_eq!(aliases.get("A"), Some(67));
    assert_eq!(aliases.get("B"), Some(66));
    assert_eq!(aliases.get("C"), None);
    let slot = parse_to_kmap_and_toggles(&cells(&["C4M", " A ", "100", "TOGGLE", "B"]), &aliases).unwrap();
    assert_eq!(slot.len(), 2);
    assert_eq!(slot.key_at(0), 67);
    assert!(matches!(slot.get(66), Some(None)));
    match slot.get(67) {
        Some(Some(v)) => assert_eq!(v.len(), 3),
        _ => panic!("key 67 plays a chord"),
    }
}

#[test]
fn low_level_hook_flags_decode() {
    assert_eq!(ll_hook_event(0x41, 0), Some((0x41, KDir::Down)));
    assert_eq!(ll_hook_event(0x41, 0x80), Some((0x41, KDir::Up)));
    assert_eq!(ll_hook_event(0x41, 0x01), Some((0x41, KDir::Down)));
    assert_eq!(ll_hook_event(0x1_0000, 0), None);
}

#[test]
fn raw_key_messages_decode() {
    assert_eq!(key_dir_of_message(WM_KEYDOWN), Some(KDir::Down));
    assert_eq!(key_dir_of_message(WM_SYSKEYDOWN), Some(KDir::Down));
    assert_eq!(key_dir_of_message(WM_KEYUP), Some(KDir::Up));
    assert_eq!(key_dir_of_message(WM_SYSKEYUP), Some(KDir::Up));
    assert_eq!(key_dir_of_message(WM_INPUT), None);
    assert!(blocks_message(false, WM_KEYDOWN));
    assert!(blocks_message(false, WM_INPUT));
    assert!(!blocks_message(true, WM_KEYDOWN));
    assert!(!blocks_message(false, WM_KEYUP));
}

#[test]
fn utf16_strings_end_in_nul() {
    for s in ["", "AoB: Set devs", "é€𝄞"] {
        let mut expected: Vec<u16> = s.encode_utf16().collect();
        expected.push(0);
        assert_eq!(win32_string(s), expected);
    }
}
