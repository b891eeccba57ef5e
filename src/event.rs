//! Key events as the per-device stream reports them.
use vstd::prelude::*;

verus! {

/// An opaque identifier of a physical input device, stable for the process.
#[derive(Debug, Clone, Copy, PartialEq, Eq, Structural)]
pub struct DeviceId(pub u64);

/// A virtual key code.
pub type KeyCode = u16;

/// The direction of a key transition.
#[derive(Debug, Clone, Copy, PartialEq, Eq, Structural)]
pub enum KDir {
    Up,
    Down,
}

/// One key transition on one device.
#[derive(Debug, Clone, Copy, PartialEq, Eq, Structural)]
pub struct KeyEvent {
    pub device: DeviceId,
    pub key: KeyCode,
    pub dir: KDir,
}

/// The key code and direction of an intercepted key message: the key code
/// travels in `w_param`, and bit 31 of `l_param` is set on release.
pub open spec fn hook_event_of(w_param: u64, l_param: u64) -> Option<(KeyCode, KDir)> {
    if w_param > 0xFFFF {
        None
    } else if l_param & 0x8000_0000 == 0 {
        Some((w_param as KeyCode, KDir::Down))
    } else {
        Some((w_param as KeyCode, KDir::Up))
    }
}

/// Decodes an intercepted key message; `None` when the key code does not fit a `KeyCode`.
pub fn hook_event(w_param: u64, l_param: u64) -> (r: Option<(KeyCode, KDir)>)
    ensures
        r == hook_event_of(w_param, l_param),
{
    if w_param > 0xFFFF {
        None
    } else if l_param & 0x8000_0000 == 0 {
        Some((w_param as KeyCode, KDir::Down))
    } else {
        Some((w_param as KeyCode, KDir::Up))
    }
}

/// The key code and direction that a low-level keyboard hook reports: bit 7
/// of its flags is set on release.
pub open spec fn ll_hook_event_of(vk_code: u32, flags: u32) -> Option<(KeyCode, KDir)> {
    if vk_code > 0xFFFF {
        None
    } else if flags & 0x80 == 0 {
        Some((vk_code as KeyCode, KDir::Down))
    } else {
        Some((vk_code as KeyCode, KDir::Up))
    }
}

/// Decodes what a low-level keyboard hook reports; `None` when the key code
/// does not fit a `KeyCode`.
pub fn ll_hook_event(vk_code: u32, flags: u32) -> (r: Option<(KeyCode, KDir)>)
    ensures
        r == ll_hook_event_of(vk_code, flags),
{
    if vk_code > 0xFFFF {
        None
    } else if flags & 0x80 == 0 {
        Some((vk_code as KeyCode, KDir::Down))
    } else {
        Some((vk_code as KeyCode, KDir::Up))
    }
}

pub const WM_INPUT: u32 = 0x00FF;

pub const WM_KEYDOWN: u32 = 0x0100;

pub const WM_SYSKEYDOWN: u32 = 0x0104;

pub const WM_KEYUP: u32 = 0x0101;

pub const WM_SYSKEYUP: u32 = 0x0105;

/// The direction of a raw keyboard message, if it is a key message.
pub open spec fn dir_of_message(message: u32) -> Option<KDir> {
    if message == WM_KEYDOWN || message == WM_SYSKEYDOWN {
        Some(KDir::Down)
    } else if message == WM_KEYUP || message == WM_SYSKEYUP {
        Some(KDir::Up)
    } else {
        None
    }
}

/// The direction of a raw keyboard message, if it is a key message.
pub fn key_dir_of_message(message: u32) -> (r: Option<KDir>)
    ensures
        r == dir_of_message(message),
{
    if message == WM_KEYDOWN || message == WM_SYSKEYDOWN {
        Some(KDir::Down)
    } else if message == WM_KEYUP || message == WM_SYSKEYUP {
        Some(KDir::Up)
    } else {
        None
    }
}

/// Whether a message hook blocks a message: key input meant for another window.
pub fn blocks_message(for_own_window: bool, message: u32) -> (r: bool)
    ensures
        r == (!for_own_window && (message == WM_INPUT || message == WM_KEYDOWN || message
            == WM_SYSKEYDOWN)),
{
    !for_own_window && (message == WM_INPUT || message == WM_KEYDOWN || message == WM_SYSKEYDOWN)
}

/// The UTF-16 code units of one character.
pub open spec fn utf16_of(c: char) -> Seq<u16> {
    let u = c as u32 as int;
    if u < 0x10000 {
        seq![u as u16]
    } else {
        let v = u - 0x10000;
        seq![(0xD800 + v / 0x400) as u16, (0xDC00 + v % 0x400) as u16]
    }
}

/// The UTF-16 encoding of a text.
pub open spec fn utf16_text(s: Seq<char>) -> Seq<u16>
    decreases s.len(),
{
    if s.len() == 0 {
        Seq::empty()
    } else {
        utf16_text(s.drop_last()) + utf16_of(s.last())
    }
}

/// `value` as a NUL-terminated UTF-16 string, the form window-system calls take.
pub fn win32_string(value: &str) -> (r: Vec<u16>)
    ensures
        r@ == utf16_text(value@).push(0),
{
    let n = value.unicode_len();
    let mut r: Vec<u16> = Vec::new();
    let mut i: usize = 0;
    while i < n
        invariant
            i <= n,
            n == value@.len(),
            r@ == utf16_text(value@.subrange(0, i as int)),
        decreases n - i,
    {
        let c = value.get_char(i);
        let u = c as u32;
        assert(value@.subrange(0, i + 1).drop_last() =~= value@.subrange(0, i as int));
        if u < 0x10000 {
            r.push(u as u16);
        } else {
            let v = u - 0x10000;
            r.push((0xD800 + v / 0x400) as u16);
            r.push((0xDC00 + v % 0x400) as u16);
        }
        assert(r@ =~= utf16_text(value@.subrange(0, i + 1)));
        i = i + 1;
    }
    assert(value@.subrange(0, n as int) =~= value@);
    r.push(0);
    r
}

} // verus!
