use vstd::prelude::*;
use crate::event::Event;

verus! {

/// Interface protocol of a boot keyboard.
pub const PROTO_KEYBOARD: u8 = 1;
/// Interface protocol of a boot mouse.
pub const PROTO_MOUSE: u8 = 2;

/// Characters (plain, shifted) of the HID usages 0x04..0x38.
pub const KEYMAP: [(char, char); 53] = [
    ('a', 'A'), ('b', 'B'), ('c', 'C'), ('d', 'D'), ('e', 'E'), ('f', 'F'), ('g', 'G'), ('h', 'H'),
    ('i', 'I'), ('j', 'J'), ('k', 'K'), ('l', 'L'), ('m', 'M'), ('n', 'N'), ('o', 'O'), ('p', 'P'),
    ('q', 'Q'), ('r', 'R'), ('s', 'S'), ('t', 'T'), ('u', 'U'), ('v', 'V'), ('w', 'W'), ('x', 'X'),
    ('y', 'Y'), ('z', 'Z'),
    ('1', '!'), ('2', '@'), ('3', '#'), ('4', '$'), ('5', '%'),
    ('6', '^'), ('7', '&'), ('8', '*'), ('9', '('), ('0', ')'),
    ('\n', '\n'), ('\x1B', '\x1B'), ('\x08', '\x08'), ('\t', '\t'), (' ', ' '),
    ('-', '_'), ('=', '+'), ('[', '{'), (']', '}'), ('\\', '|'), ('\0', '\0'),
    (';', ':'), ('\'', '"'), ('`', '~'), (',', '<'), ('.', '>'), ('/', '?'),
];

/// The character of a HID usage: letters take the shifted form when exactly one of Shift
/// and Caps Lock applies, other keys when Shift is held; usages outside the map give `'\0'`.
pub open spec fn usage_char(usage: u8, shift: bool, caps: bool) -> char {
    if usage < 0x04 || usage >= 0x04 + 53 {
        '\0'
    } else {
        let (lo, hi) = KEYMAP@[usage - 0x04];
        if 'a' <= lo && lo <= 'z' {
            if shift != caps { hi } else { lo }
        } else if shift {
            hi
        } else {
            lo
        }
    }
}

/// Character for a HID keyboard usage.
pub fn usage_to_char(usage: u8, shift: bool, caps: bool) -> (r: char)
    ensures
        r == usage_char(usage, shift, caps),
{
    if usage < 0x04 || usage as usize >= 0x04 + 53 {
        return '\0';
    }
    let (lo, hi) = KEYMAP[(usage - 0x04) as usize];
    let is_letter = lo >= 'a' && lo <= 'z';
    if is_letter {
        if shift ^ caps { hi } else { lo }
    } else if shift {
        hi
    } else {
        lo
    }
}

/// The keys of a report that are newly pressed characters, from slot `i` on: slots holding
/// no key (0), rollover (1) or Caps Lock (0x39), and keys already held in `prev`, give
/// nothing; the others give a key event when they stand for a character.
pub open spec fn new_key_events(keys: Seq<u8>, prev: Seq<u8>, shift: bool, caps: bool, i: int) -> Seq<Event>
    decreases 6 - i,
{
    if i >= 6 || i < 0 {
        Seq::empty()
    } else {
        let k = keys[i];
        let rest = new_key_events(keys, prev, shift, caps, i + 1);
        if k == 0 || k == 1 || k == 0x39 || prev.contains(k) || usage_char(k, shift, caps) == '\0' {
            rest
        } else {
            seq![Event { kind: 1, data1: usage_char(k, shift, caps) as i32, data2: 0, data3: 0 }] + rest
        }
    }
}

/// The state kept between HID reports: the keys held in the last keyboard report, Caps
/// Lock, and the cursor position (negative until the first mouse report).
pub struct HidState {
    pub prev_keys: [u8; 6],
    pub caps: bool,
    pub mx: i32,
    pub my: i32,
}

impl HidState {
    /// Positions stay in a range where a movement cannot overflow.
    pub open spec fn wf(&self) -> bool {
        -1 <= self.mx <= 0x7FFF_0000 && -1 <= self.my <= 0x7FFF_0000
    }

    /// No keys held, Caps Lock off, cursor not placed yet.
    pub fn new() -> (r: HidState)
        ensures
            r.wf(),
            r.prev_keys@ == seq![0u8, 0u8, 0u8, 0u8, 0u8, 0u8],
            !r.caps,
            r.mx == -1 && r.my == -1,
    {
        let r = HidState { prev_keys: [0u8; 6], caps: false, mx: -1, my: -1 };
        assert(r.prev_keys@ =~= seq![0u8, 0u8, 0u8, 0u8, 0u8, 0u8]);
        r
    }

    /// Handles a boot keyboard report (modifiers, reserved, six key slots): Caps Lock
    /// toggles when it appears in the report and was not held before; each newly pressed key
    /// gives a key event (see `new_key_events`); the slots become the held keys. Reports
    /// shorter than eight bytes are ignored.
    pub fn keyboard_report(&mut self, d: &[u8]) -> (r: Vec<Event>)
        requires
            old(self).wf(),
        ensures
            final(self).wf(),
            final(self).mx == old(self).mx && final(self).my == old(self).my,
            d@.len() < 8 ==> r@.len() == 0 && final(self).prev_keys == old(self).prev_keys
                && final(self).caps == old(self).caps,
            d@.len() >= 8 ==> ({
                let keys = d@.subrange(2, 8);
                let shift = (d@[0] / 2) % 2 == 1 || (d@[0] / 32) % 2 == 1;
                let caps = if keys.contains(0x39u8) && !old(self).prev_keys@.contains(0x39u8) {
                    !old(self).caps
                } else {
                    old(self).caps
                };
                &&& final(self).caps == caps
                &&& final(self).prev_keys@ == keys
                &&& r@ == new_key_events(keys, old(self).prev_keys@, shift, caps, 0)
            }),
    {
        let mut events: Vec<Event> = Vec::new();
        if d.len() < 8 {
            return events;
        }
        let ghost keys = d@.subrange(2, 8);
        let ghost prev = self.prev_keys@;
        let modi = d[0];
        let shift = (modi & 0x02) != 0 || (modi & 0x20) != 0;
        assert(shift == ((modi / 2) % 2 == 1 || (modi / 32) % 2 == 1)) by (bit_vector)
            requires
                shift == ((modi & 0x02) != 0 || (modi & 0x20) != 0),
        ;
        let caps_now = contains6(d, 2, 0x39);
        let caps_prev = contains6(&self.prev_keys, 0, 0x39);
        assert(keys =~= d@.subrange(2, 8));
        assert(self.prev_keys@.subrange(0, 6) =~= prev);
        if caps_now && !caps_prev {
            self.caps = !self.caps;
        }
        let caps = self.caps;
        let mut i: usize = 6;
        let ghost n = d@.len();
        while i > 0
            invariant
                d@.len() >= 8,
                keys == d@.subrange(2, 8),
                prev == old(self).prev_keys@,
                self.prev_keys@ == prev,
                i <= 6,
                events@ == new_key_events(keys, prev, shift, caps, i as int),
            decreases i,
        {
            i = i - 1;
            let k = d[2 + i];
            assert(k == keys[i as int]);
            let held = contains6(&self.prev_keys, 0, k);
            assert(self.prev_keys@.subrange(0, 6) =~= prev);
            if !(k == 0 || k == 1 || k == 0x39 || held) {
                let ch = usage_to_char(k, shift, caps);
                if ch != '\0' {
                    let mut front: Vec<Event> = Vec::new();
                    front.push(Event { kind: 1, data1: ch as i32, data2: 0, data3: 0 });
                    let mut rest = events;
                    front.append(&mut rest);
                    events = front;
                }
            }
            assert(events@ =~= new_key_events(keys, prev, shift, caps, i as int));
        }
        let mut j: usize = 0;
        while j < 6
            invariant
                d@.len() >= 8,
                j <= 6,
                forall|x: int| 0 <= x < j ==> self.prev_keys@[x] == d@[2 + x],
                self.mx == old(self).mx && self.my == old(self).my,
                self.caps == caps,
                old(self).wf(),
            decreases 6 - j,
        {
            self.prev_keys[j] = d[2 + j];
            j = j + 1;
        }
        assert(self.prev_keys@ =~= keys);
        events
    }

    /// Handles a boot mouse report (buttons, dx, dy as signed bytes) on a `w` x `h` screen:
    /// the first report places the cursor at the centre; the cursor moves (down for positive
    /// dy), is kept on the screen, and a mouse event with the position and button bits is
    /// returned. Short reports and an empty screen give nothing.
    pub fn mouse_report(&mut self, d: &[u8], w: i32, h: i32) -> (r: Option<Event>)
        requires
            old(self).wf(),
            0 <= w <= 0x7FFF_0000,
            0 <= h <= 0x7FFF_0000,
        ensures
            final(self).wf(),
            final(self).prev_keys == old(self).prev_keys && final(self).caps == old(self).caps,
            d@.len() < 3 || w == 0 || h == 0 ==> r is None && final(self).mx == old(self).mx
                && final(self).my == old(self).my,
            d@.len() >= 3 && w > 0 && h > 0 ==> ({
                let sx = if old(self).mx < 0 { w / 2 } else { old(self).mx as int };
                let sy = if old(self).mx < 0 { h / 2 } else { old(self).my as int };
                let dx = if d@[1] >= 128 { d@[1] - 256 } else { d@[1] as int };
                let dy = if d@[2] >= 128 { d@[2] - 256 } else { d@[2] as int };
                let nx = crate::mouse::clamp(sx + dx, 0, w - 1);
                let ny = crate::mouse::clamp(sy + dy, 0, h - 1);
                &&& final(self).mx == nx
                &&& final(self).my == ny
                &&& r == Some(Event { kind: 2, data1: nx as i32, data2: ny as i32, data3: (d@[0] % 8) as i32 })
            }),
    {
        if d.len() < 3 {
            return None;
        }
        if w == 0 || h == 0 {
            return None;
        }
        if self.mx < 0 {
            self.mx = w / 2;
            self.my = h / 2;
        }
        let b0 = d[0];
        let buttons = (b0 & 0x07) as i32;
        assert((b0 & 0x07) == b0 % 8) by (bit_vector);
        let dx = signed_byte(d[1]);
        let dy = signed_byte(d[2]);
        self.mx += dx;
        self.my += dy;
        if self.mx < 0 {
            self.mx = 0;
        }
        if self.my < 0 {
            self.my = 0;
        }
        if self.mx > w - 1 {
            self.mx = w - 1;
        }
        if self.my > h - 1 {
            self.my = h - 1;
        }
        Some(Event { kind: 2, data1: self.mx, data2: self.my, data3: buttons })
    }

    /// Handles a HID report of a keyboard or mouse interface; other protocols give nothing.
    pub fn on_report(&mut self, proto: u8, data: &[u8], w: i32, h: i32) -> (r: Vec<Event>)
        requires
            old(self).wf(),
            0 <= w <= 0x7FFF_0000,
            0 <= h <= 0x7FFF_0000,
        ensures
            final(self).wf(),
            proto != PROTO_KEYBOARD && proto != PROTO_MOUSE ==> r@.len() == 0 && *final(self) == *old(self),
            proto == PROTO_KEYBOARD ==> {
                &&& final(self).mx == old(self).mx && final(self).my == old(self).my
                &&& data@.len() < 8 ==> r@.len() == 0 && final(self).prev_keys == old(self).prev_keys
                    && final(self).caps == old(self).caps
                &&& data@.len() >= 8 ==> ({
                    let keys = data@.subrange(2, 8);
                    let shift = (data@[0] / 2) % 2 == 1 || (data@[0] / 32) % 2 == 1;
                    let caps = if keys.contains(0x39u8) && !old(self).prev_keys@.contains(0x39u8) {
                        !old(self).caps
                    } else {
                        old(self).caps
                    };
                    &&& final(self).caps == caps
                    &&& final(self).prev_keys@ == keys
                    &&& r@ == new_key_events(keys, old(self).prev_keys@, shift, caps, 0)
                })
            },
            proto == PROTO_MOUSE ==> {
                &&& final(self).prev_keys == old(self).prev_keys && final(self).caps == old(self).caps
                &&& data@.len() < 3 || w == 0 || h == 0 ==> r@.len() == 0 && final(self).mx == old(self).mx
                    && final(self).my == old(self).my
                &&& data@.len() >= 3 && w > 0 && h > 0 ==> ({
                    let sx = if old(self).mx < 0 { w / 2 } else { old(self).mx as int };
                    let sy = if old(self).mx < 0 { h / 2 } else { old(self).my as int };
                    let dx = if data@[1] >= 128 { data@[1] - 256 } else { data@[1] as int };
                    let dy = if data@[2] >= 128 { data@[2] - 256 } else { data@[2] as int };
                    let nx = crate::mouse::clamp(sx + dx, 0, w - 1);
                    let ny = crate::mouse::clamp(sy + dy, 0, h - 1);
                    &&& final(self).mx == nx
                    &&& final(self).my == ny
                    &&& r@ == seq![Event { kind: 2, data1: nx as i32, data2: ny as i32, data3: (data@[0] % 8) as i32 }]
                })
            },
    {
        if proto == PROTO_KEYBOARD {
            self.keyboard_report(data)
        } else if proto == PROTO_MOUSE {
            let mut v: Vec<Event> = Vec::new();
            match self.mouse_report(data, w, h) {
                Some(e) => {
                    v.push(e);
                    assert(v@ =~= seq![e]);
                },
                None => {},
            }
            v
        } else {
            Vec::new()
        }
    }
}

/// The signed value of a byte read as `i8`.
fn signed_byte(b: u8) -> (r: i32)
    ensures
        r == if b >= 128 { b as int - 256 } else { b as int },
{
    if b >= 128 { b as i32 - 256 } else { b as i32 }
}

/// Whether `s[from..from + 6]` holds `k`.
fn contains6(s: &[u8], from: usize, k: u8) -> (r: bool)
    requires
        from + 6 <= s@.len(),
    ensures
        r == s@.subrange(from as int, from + 6).contains(k),
{
    let ghost t = s@.subrange(from as int, from + 6);
    let _n = s.len();
    let mut i: usize = 0;
    while i < 6
        invariant
            from + 6 <= s@.len(),
            s@.len() == _n,
            t == s@.subrange(from as int, from + 6),
            i <= 6,
            forall|j: int| 0 <= j < i ==> t[j] != k,
        decreases 6 - i,
    {
        if s[from + i] == k {
            assert(t[i as int] == k);
            return true;
        }
        i = i + 1;
    }
    false
}

} // verus!
