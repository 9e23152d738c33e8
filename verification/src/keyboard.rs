use vstd::prelude::*;
use crate::event::Event;

verus! {

/// Characters of the scan codes (set 1) below 58 without Shift.
pub const SCANCODE_TABLE: [char; 58] = [
    '\0', '\x1B', '1', '2', '3', '4', '5', '6', '7', '8', '9', '0', '-', '=', '\x08',
    '\t', 'q', 'w', 'e', 'r', 't', 'y', 'u', 'i', 'o', 'p', '[', ']', '\n', '\0',
    'a', 's', 'd', 'f', 'g', 'h', 'j', 'k', 'l', ';', '\'', '`', '\0', '\\',
    'z', 'x', 'c', 'v', 'b', 'n', 'm', ',', '.', '/', '\0', '*', '\0', ' ',
];

/// Characters of the same scan codes with Shift held.
pub const SCANCODE_TABLE_SHIFTED: [char; 58] = [
    '\0', '\x1B', '!', '@', '#', '$', '%', '^', '&', '*', '(', ')', '_', '+', '\x08',
    '\t', 'Q', 'W', 'E', 'R', 'T', 'Y', 'U', 'I', 'O', 'P', '{', '}', '\n', '\0',
    'A', 'S', 'D', 'F', 'G', 'H', 'J', 'K', 'L', ':', '"', '~', '\0', '|',
    'Z', 'X', 'C', 'V', 'B', 'N', 'M', '<', '>', '?', '\0', '*', '\0', ' ',
];

/// The state of the PS/2 keyboard: whether Shift is held and whether Caps Lock is on.
pub struct KeyboardState {
    pub shift: bool,
    pub caps: bool,
}

/// The character a make code gives: letters take the shifted form when exactly one of Shift
/// and Caps Lock applies, other keys when Shift is held.
pub open spec fn key_char(code: int, shift: bool, caps: bool) -> char {
    let ch = SCANCODE_TABLE@[code];
    let sh = SCANCODE_TABLE_SHIFTED@[code];
    if 'a' <= ch && ch <= 'z' {
        if shift != caps { sh } else { ch }
    } else if shift {
        sh
    } else {
        ch
    }
}

impl KeyboardState {
    /// Shift released, Caps Lock off.
    pub fn new() -> (r: KeyboardState)
        ensures
            !r.shift && !r.caps,
    {
        KeyboardState { shift: false, caps: false }
    }

    /// Handles one scan code: Shift press and release (0x2A/0x36, 0xAA/0xB6) and Caps Lock
    /// (0x3A) change the state; a make code below 58 that stands for a character gives a key
    /// event carrying it.
    pub fn handle_scancode(&mut self, scancode: u8) -> (r: Option<Event>)
        ensures
            scancode == 0x2A || scancode == 0x36 ==> final(self).shift && final(self).caps == old(self).caps && r is None,
            scancode == 0xAA || scancode == 0xB6 ==> !final(self).shift && final(self).caps == old(self).caps && r is None,
            scancode == 0x3A ==> final(self).caps == !old(self).caps && final(self).shift == old(self).shift && r is None,
            scancode != 0x2A && scancode != 0x36 && scancode != 0xAA && scancode != 0xB6 && scancode != 0x3A ==> ({
                &&& final(self).shift == old(self).shift
                &&& final(self).caps == old(self).caps
                &&& r == if scancode < 58 && key_char(scancode as int, old(self).shift, old(self).caps) != '\0' {
                    Some(Event {
                        kind: 1,
                        data1: key_char(scancode as int, old(self).shift, old(self).caps) as i32,
                        data2: 0,
                        data3: 0,
                    })
                } else {
                    None
                }
            }),
    {
        match scancode {
            0x2A | 0x36 => {
                self.shift = true;
                return None;
            },
            0xAA | 0xB6 => {
                self.shift = false;
                return None;
            },
            0x3A => {
                self.caps = !self.caps;
                return None;
            },
            _ => {},
        }
        if scancode < 0x80 {
            let index = scancode as usize;
            if index < 58 {
                let ch = SCANCODE_TABLE[index];
                let shifted_ch = SCANCODE_TABLE_SHIFTED[index];
                let is_letter = ch >= 'a' && ch <= 'z';
                let final_char = if is_letter {
                    if self.shift ^ self.caps { shifted_ch } else { ch }
                } else {
                    if self.shift { shifted_ch } else { ch }
                };
                if final_char != '\0' {
                    return Some(Event { kind: 1, data1: final_char as i32, data2: 0, data3: 0 });
                }
            }
        }
        None
    }
}

} // verus!
