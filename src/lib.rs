//! Key presses on several independently identified keyboards turned into MIDI
//! note messages, through a per-device chord mapping.

pub mod chord;
pub mod config;
pub mod engine;
pub mod event;
pub mod event_log;
pub mod keymap;
pub mod message;
pub mod midi;

pub use chord::{Chord, ChordError, MidiNote, Note, NoteError, NoteLetter};
pub use event::{
    blocks_message, hook_event, key_dir_of_message, ll_hook_event, win32_string, DeviceId, KDir,
    KeyCode, KeyEvent, WM_INPUT, WM_KEYDOWN, WM_KEYUP, WM_SYSKEYDOWN, WM_SYSKEYUP,
};
pub use event_log::EventLog;
pub use midi::{KeyState, MidiHandler, MidiMsg, NOTE_OFF_MSG, NOTE_ON_MSG};
pub use keymap::{SlotEntry, SlotMap};
pub use engine::{Engine, SuppressionMode};
pub use config::{
    clean, parse_aliases, parse_to_kmap_and_toggles, resolve_key, same_text, trim, AliasTable,
    ConfigError,
};
