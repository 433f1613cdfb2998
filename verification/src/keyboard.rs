//! Keyboard input: the key events the menus react to, and the decoding of
//! PS/2 scan codes (set 1) into them. Characters are decoded by the
//! `pc-keyboard` crate with its US 104-key layout.
use vstd::prelude::*;
use pc_keyboard::{layouts::Us104Key, DecodedKey, HandleControl, Keyboard, ScancodeSet1};
use pc_keyboard::KeyEvent as PcKeyEvent;
use pc_keyboard::Error as PcError;

verus! {

/// A key press that the menus react to.
#[derive(Debug, Clone, Copy, PartialEq, Eq)]
pub enum KeyEvent {
    Char(char),
    Up,
    Down,
    Home,
    End,
    Enter,
    Escape,
}

/// The navigation keys, by their set-1 make codes.
pub open spec fn spec_scancode_to_event(scancode: u8) -> Option<KeyEvent> {
    if scancode == 0x48 {
        Some(KeyEvent::Up)
    } else if scancode == 0x50 {
        Some(KeyEvent::Down)
    } else if scancode == 0x47 {
        Some(KeyEvent::Home)
    } else if scancode == 0x4F {
        Some(KeyEvent::End)
    } else if scancode == 0x1C {
        Some(KeyEvent::Enter)
    } else if scancode == 0x01 {
        Some(KeyEvent::Escape)
    } else {
        None
    }
}

/// The navigation key that a make code stands for, if any.
pub fn scancode_to_event(scancode: u8) -> (r: Option<KeyEvent>)
    ensures
        r == spec_scancode_to_event(scancode),
{
    match scancode {
        0x48 => Some(KeyEvent::Up),
        0x50 => Some(KeyEvent::Down),
        0x47 => Some(KeyEvent::Home),
        0x4F => Some(KeyEvent::End),
        0x1C => Some(KeyEvent::Enter),
        0x01 => Some(KeyEvent::Escape),
        _ => None,
    }
}


// ---------------------------------------------------------------------------
// The pc-keyboard decoder
// ---------------------------------------------------------------------------

#[verifier::external_type_specification]
#[verifier::external_body]
pub struct ExPcKeyEvent(PcKeyEvent);

#[verifier::external_type_specification]
#[verifier::external_body]
pub struct ExPcError(PcError);

/// What `Keyboard::process_keyevent` decodes a key event into: a character,
/// or a key that has none.
pub enum Decoded {
    Unicode(char),
    Raw,
}

/// Turns the scan codes read from the keyboard controller into key events.
/// It holds a `pc_keyboard::Keyboard`, whose generic declaration Verus does
/// not take, so the decoder is opaque.
#[verifier::external_body]
pub struct KeyDecoder {
    kb: Keyboard<Us104Key, ScancodeSet1>,
}

/// Calls `pc_keyboard::Keyboard::new` with scan code set 1, the US 104-key
/// layout and Ctrl handled as an ordinary key. Nothing is claimed of the
/// decoder's state.
#[verifier::external_body]
fn new_us104_keyboard() -> KeyDecoder {
    KeyDecoder { kb: Keyboard::new(ScancodeSet1::new(), Us104Key, HandleControl::Ignore) }
}

/// Calls `Keyboard::add_byte`, which advances the scan code set's state by
/// one byte and may complete a key event. Its result depends on the bytes
/// before it, so nothing is claimed of it.
#[verifier::external_body]
fn keyboard_add_byte(d: &mut KeyDecoder, byte: u8) -> Result<Option<PcKeyEvent>, PcError> {
    d.kb.add_byte(byte)
}

/// Calls `Keyboard::process_keyevent`, which updates the modifier state and
/// maps the key through the layout, and tells a character from a raw key.
/// The character depends on the modifiers held, so nothing is claimed of it.
#[verifier::external_body]
fn keyboard_process_keyevent(d: &mut KeyDecoder, ev: PcKeyEvent) -> Option<Decoded> {
    match d.kb.process_keyevent(ev) {
        Some(DecodedKey::Unicode(c)) => Some(Decoded::Unicode(c)),
        Some(DecodedKey::RawKey(_)) => Some(Decoded::Raw),
        None => None,
    }
}

/// Calls `Keyboard::clear`, which empties the PS/2 bit register.
#[verifier::external_body]
fn keyboard_clear(d: &mut KeyDecoder) {
    d.kb.clear()
}

/// A byte is waiting in the controller's output buffer: bit 0 of the status
/// register.
pub fn output_ready(status: u8) -> (r: bool)
    ensures
        r == (status & 1 != 0),
{
    status & 1 != 0
}

/// The controller takes a byte once its input buffer is empty: bit 1 of the
/// status register is clear.
pub fn input_ready(status: u8) -> (r: bool)
    ensures
        r == (status & 2 == 0),
{
    status & 2 == 0
}

/// Whether a set-1 scan code reports a key release: its top bit.
pub open spec fn is_release(scancode: u8) -> bool {
    scancode & 0x80 != 0
}

impl KeyDecoder {
    /// A decoder for scan code set 1 and the US 104-key layout.
    pub fn new() -> (r: Self) {
        new_us104_keyboard()
    }

    /// Forgets a partly received scan code.
    pub fn reset(&mut self) {
        keyboard_clear(self);
    }

    /// The key event that one scan code completes: none for a release; the
    /// navigation key for the make codes of the arrows, Home, End, Enter and
    /// Escape; otherwise the character that the layout gives, if the byte
    /// completes a key that has one.
    pub fn feed(&mut self, scancode: u8) -> (r: Option<KeyEvent>)
        ensures
            is_release(scancode) ==> r is None,
            !is_release(scancode) && spec_scancode_to_event(scancode) is Some ==> r
                == spec_scancode_to_event(scancode),
            !is_release(scancode) && spec_scancode_to_event(scancode) is None ==> match r {
                None => true,
                Some(ev) => ev is Char,
            },
    {
        if scancode & 0x80 != 0 {
            return None;
        }
        if let Some(ev) = scancode_to_event(scancode) {
            return Some(ev);
        }
        match keyboard_add_byte(self, scancode) {
            Ok(Some(kev)) => match keyboard_process_keyevent(self, kev) {
                Some(Decoded::Unicode(c)) => Some(KeyEvent::Char(c)),
                Some(Decoded::Raw) => None,
                None => None,
            },
            Ok(None) => None,
            Err(_) => None,
        }
    }
}

} // verus!
