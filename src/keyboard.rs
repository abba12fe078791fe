//! Keyboard: modifier state and the translation of set-1 scancodes.
use vstd::prelude::*;

verus! {

/// Characters of a key: without and with shift.
pub open spec fn keymap(scancode: u8) -> Option<(char, char)> {
    if scancode == 0x02 { Some(('1', '!')) }
    else if scancode == 0x03 { Some(('2', '@')) }
    else if scancode == 0x04 { Some(('3', '#')) }
    else if scancode == 0x05 { Some(('4', '$')) }
    else if scancode == 0x06 { Some(('5', '%')) }
    else if scancode == 0x07 { Some(('6', '^')) }
    else if scancode == 0x08 { Some(('7', '&')) }
    else if scancode == 0x09 { Some(('8', '*')) }
    else if scancode == 0x0A { Some(('9', '(')) }
    else if scancode == 0x0B { Some(('0', ')')) }
    else if scancode == 0x0C { Some(('-', '_')) }
    else if scancode == 0x0D { Some(('=', '+')) }
    else if scancode == 0x10 { Some(('q', 'Q')) }
    else if scancode == 0x11 { Some(('w', 'W')) }
    else if scancode == 0x12 { Some(('e', 'E')) }
    else if scancode == 0x13 { Some(('r', 'R')) }
    else if scancode == 0x14 { Some(('t', 'T')) }
    else if scancode == 0x15 { Some(('y', 'Y')) }
    else if scancode == 0x16 { Some(('u', 'U')) }
    else if scancode == 0x17 { Some(('i', 'I')) }
    else if scancode == 0x18 { Some(('o', 'O')) }
    else if scancode == 0x19 { Some(('p', 'P')) }
    else if scancode == 0x1E { Some(('a', 'A')) }
    else if scancode == 0x1F { Some(('s', 'S')) }
    else if scancode == 0x20 { Some(('d', 'D')) }
    else if scancode == 0x21 { Some(('f', 'F')) }
    else if scancode == 0x22 { Some(('g', 'G')) }
    else if scancode == 0x23 { Some(('h', 'H')) }
    else if scancode == 0x24 { Some(('j', 'J')) }
    else if scancode == 0x25 { Some(('k', 'K')) }
    else if scancode == 0x26 { Some(('l', 'L')) }
    else if scancode == 0x2C { Some(('z', 'Z')) }
    else if scancode == 0x2D { Some(('x', 'X')) }
    else if scancode == 0x2E { Some(('c', 'C')) }
    else if scancode == 0x2F { Some(('v', 'V')) }
    else if scancode == 0x30 { Some(('b', 'B')) }
    else if scancode == 0x31 { Some(('n', 'N')) }
    else if scancode == 0x32 { Some(('m', 'M')) }
    else if scancode == 0x1A { Some(('[', '{')) }
    else if scancode == 0x1B { Some((']', '}')) }
    else if scancode == 0x2B { Some(('\\', '|')) }
    else if scancode == 0x27 { Some((';', ':')) }
    else if scancode == 0x28 { Some(('\'', '"')) }
    else if scancode == 0x33 { Some((',', '<')) }
    else if scancode == 0x34 { Some(('.', '>')) }
    else if scancode == 0x35 { Some(('/', '?')) }
    else if scancode == 0x29 { Some(('`', '~')) }
    else if scancode == 0x39 { Some((' ', ' ')) }
    else { None }
}

fn key_chars(scancode: u8) -> (r: Option<(char, char)>)
    ensures
        r == keymap(scancode),
{
    if scancode == 0x02 { Some(('1', '!')) }
    else if scancode == 0x03 { Some(('2', '@')) }
    else if scancode == 0x04 { Some(('3', '#')) }
    else if scancode == 0x05 { Some(('4', '$')) }
    else if scancode == 0x06 { Some(('5', '%')) }
    else if scancode == 0x07 { Some(('6', '^')) }
    else if scancode == 0x08 { Some(('7', '&')) }
    else if scancode == 0x09 { Some(('8', '*')) }
    else if scancode == 0x0A { Some(('9', '(')) }
    else if scancode == 0x0B { Some(('0', ')')) }
    else if scancode == 0x0C { Some(('-', '_')) }
    else if scancode == 0x0D { Some(('=', '+')) }
    else if scancode == 0x10 { Some(('q', 'Q')) }
    else if scancode == 0x11 { Some(('w', 'W')) }
    else if scancode == 0x12 { Some(('e', 'E')) }
    else if scancode == 0x13 { Some(('r', 'R')) }
    else if scancode == 0x14 { Some(('t', 'T')) }
    else if scancode == 0x15 { Some(('y', 'Y')) }
    else if scancode == 0x16 { Some(('u', 'U')) }
    else if scancode == 0x17 { Some(('i', 'I')) }
    else if scancode == 0x18 { Some(('o', 'O')) }
    else if scancode == 0x19 { Some(('p', 'P')) }
    else if scancode == 0x1E { Some(('a', 'A')) }
    else if scancode == 0x1F { Some(('s', 'S')) }
    else if scancode == 0x20 { Some(('d', 'D')) }
    else if scancode == 0x21 { Some(('f', 'F')) }
    else if scancode == 0x22 { Some(('g', 'G')) }
    else if scancode == 0x23 { Some(('h', 'H')) }
    else if scancode == 0x24 { Some(('j', 'J')) }
    else if scancode == 0x25 { Some(('k', 'K')) }
    else if scancode == 0x26 { Some(('l', 'L')) }
    else if scancode == 0x2C { Some(('z', 'Z')) }
    else if scancode == 0x2D { Some(('x', 'X')) }
    else if scancode == 0x2E { Some(('c', 'C')) }
    else if scancode == 0x2F { Some(('v', 'V')) }
    else if scancode == 0x30 { Some(('b', 'B')) }
    else if scancode == 0x31 { Some(('n', 'N')) }
    else if scancode == 0x32 { Some(('m', 'M')) }
    else if scancode == 0x1A { Some(('[', '{')) }
    else if scancode == 0x1B { Some((']', '}')) }
    else if scancode == 0x2B { Some(('\\', '|')) }
    else if scancode == 0x27 { Some((';', ':')) }
    else if scancode == 0x28 { Some(('\'', '"')) }
    else if scancode == 0x33 { Some((',', '<')) }
    else if scancode == 0x34 { Some(('.', '>')) }
    else if scancode == 0x35 { Some(('/', '?')) }
    else if scancode == 0x29 { Some(('`', '~')) }
    else if scancode == 0x39 { Some((' ', ' ')) }
    else { None }
}

/// ASCII letter.
pub open spec fn is_letter(c: char) -> bool {
    (65 <= c as u32 <= 90) || (97 <= c as u32 <= 122)
}

/// What a key press asks the shell to do.
#[derive(Clone, Copy, PartialEq, Eq, Structural, Debug)]
pub enum KeyAction {
    /// Nothing (a modifier, a release, an unmapped key).
    Nothing,
    /// Erase the last character.
    Backspace,
    /// Run the line.
    Enter,
    /// Type a character.
    Type(char),
}

/// Modifier keys held, and the caps lock toggle.
#[derive(Clone, Copy, PartialEq, Eq, Structural, Debug)]
pub struct Keyboard {
    pub left_shift: bool,
    pub right_shift: bool,
    pub left_ctrl: bool,
    pub right_ctrl: bool,
    pub left_alt: bool,
    pub right_alt: bool,
    pub caps_lock: bool,
}

/// The character a mapped key gives: its shifted form with shift held, then
/// letters in upper case exactly when one of shift and caps lock is on.
pub open spec fn key_char(keys: (char, char), shift: bool, caps: bool) -> int {
    let c = if shift { keys.1 } else { keys.0 };
    if is_letter(c) {
        if caps != shift {
            if 97 <= c as u32 <= 122 { c as u32 - 32 } else { c as u32 as int }
        } else {
            if 65 <= c as u32 <= 90 { c as u32 + 32 } else { c as u32 as int }
        }
    } else {
        c as u32 as int
    }
}

impl Keyboard {
    /// No key held, caps lock off.
    pub fn new() -> (r: Keyboard)
        ensures
            !r.left_shift && !r.right_shift && !r.left_ctrl && !r.right_ctrl,
            !r.left_alt && !r.right_alt && !r.caps_lock,
    {
        Keyboard {
            left_shift: false,
            right_shift: false,
            left_ctrl: false,
            right_ctrl: false,
            left_alt: false,
            right_alt: false,
            caps_lock: false,
        }
    }

    /// The character of a key press under the current modifiers, or NUL for
    /// an unmapped scancode.
    pub fn scancode_to_char(&self, scancode: u8) -> (r: char)
        ensures
            keymap(scancode) is None ==> r == '\0',
            keymap(scancode) matches Some(keys) ==> r as u32 == key_char(
                keys,
                self.left_shift || self.right_shift,
                self.caps_lock,
            ),
    {
        let shift = self.left_shift || self.right_shift;
        match key_chars(scancode) {
            None => '\0',
            Some((normal, shifted)) => {
                let c = if shift {
                    shifted
                } else {
                    normal
                };
                let code = c as u32;
                let letter = (65 <= code && code <= 90) || (97 <= code && code <= 122);
                if letter {
                    if self.caps_lock != shift {
                        if 97 <= code && code <= 122 {
                            ascii((code - 32) as u8)
                        } else {
                            c
                        }
                    } else {
                        if 65 <= code && code <= 90 {
                            ascii((code + 32) as u8)
                        } else {
                            c
                        }
                    }
                } else {
                    c
                }
            },
        }
    }

    /// Handles one scancode (`extended` when an 0xE0 prefix came before it):
    /// updates the modifier state and says what the shell should do.
    pub fn keyboard_handler(&mut self, extended: bool, scancode: u8) -> (r: KeyAction)
        ensures
            extended ==> r == KeyAction::Nothing && *final(self) == (Keyboard {
                right_ctrl: if scancode == 0x1D { true } else if scancode == 0x9D { false } else { old(self).right_ctrl },
                right_alt: if scancode == 0x38 { true } else if scancode == 0xB8 { false } else { old(self).right_alt },
                ..*old(self)
            }),
            !extended && scancode == 0x3A ==> r == KeyAction::Nothing && *final(self) == (Keyboard {
                caps_lock: !old(self).caps_lock,
                ..*old(self)
            }),
            !extended && scancode == 0x0E ==> r == KeyAction::Backspace && *final(self) == *old(self),
            !extended && scancode == 0x1C ==> r == KeyAction::Enter && *final(self) == *old(self),
            !extended && scancode != 0x3A && scancode != 0x0E && scancode != 0x1C ==> {
                &&& *final(self) == (Keyboard {
                    left_shift: if scancode == 0x2A { true } else if scancode == 0xAA { false } else { old(self).left_shift },
                    right_shift: if scancode == 0x36 { true } else if scancode == 0xB6 { false } else { old(self).right_shift },
                    left_ctrl: if scancode == 0x1D { true } else if scancode == 0x9D { false } else { old(self).left_ctrl },
                    left_alt: if scancode == 0x38 { true } else if scancode == 0xB8 { false } else { old(self).left_alt },
                    ..*old(self)
                })
                &&& keymap(scancode) is None ==> r == KeyAction::Nothing
                &&& keymap(scancode) matches Some(keys) ==> r matches KeyAction::Type(c) && c as u32 == key_char(
                    keys,
                    final(self).left_shift || final(self).right_shift,
                    final(self).caps_lock,
                )
            },
    {
        if extended {
            if scancode == 0x1D {
                self.right_ctrl = true;
            } else if scancode == 0x9D {
                self.right_ctrl = false;
            } else if scancode == 0x38 {
                self.right_alt = true;
            } else if scancode == 0xB8 {
                self.right_alt = false;
            }
            return KeyAction::Nothing;
        }
        if scancode == 0x2A {
            self.left_shift = true;
        } else if scancode == 0xAA {
            self.left_shift = false;
        } else if scancode == 0x36 {
            self.right_shift = true;
        } else if scancode == 0xB6 {
            self.right_shift = false;
        } else if scancode == 0x1D {
            self.left_ctrl = true;
        } else if scancode == 0x9D {
            self.left_ctrl = false;
        } else if scancode == 0x38 {
            self.left_alt = true;
        } else if scancode == 0xB8 {
            self.left_alt = false;
        } else if scancode == 0x3A {
            self.caps_lock = !self.caps_lock;
            return KeyAction::Nothing;
        } else if scancode == 0x0E {
            return KeyAction::Backspace;
        } else if scancode == 0x1C {
            return KeyAction::Enter;
        }
        let key = self.scancode_to_char(scancode);
        if key != '\0' {
            KeyAction::Type(key)
        } else {
            KeyAction::Nothing
        }
    }
}

/// The ASCII character with code `b`.
fn ascii(b: u8) -> (r: char)
    requires
        b < 128,
    ensures
        r as u32 == b,
{
    b as char
}

} // verus!
