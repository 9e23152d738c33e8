use vstd::prelude::*;
use crate::event::Event;
use crate::renderer::{Renderer, copied, idx};

verus! {

/// The state of the PS/2 mouse: which byte of a three-byte packet comes next, the bytes read
/// so far, the cursor position and the cursor colour (by button).
pub struct MouseState {
    pub cycle: u8,
    pub packet: [u8; 3],
    pub x: i32,
    pub y: i32,
    pub color: u32,
}

/// The signed movement a packet byte gives, with the sign bit from the flags byte.
pub open spec fn movement(byte: u8, negative: bool) -> int {
    if negative { byte as int - 256 } else { byte as int }
}

/// `v` kept within `lo..=hi`.
pub open spec fn clamp(v: int, lo: int, hi: int) -> int {
    if v < lo { lo } else if v > hi { hi } else { v }
}

/// Colour of the cursor for the button bits of a packet: green while the left button is
/// held, red for the right one, blue for the middle one, white otherwise.
pub open spec fn button_color(flags: u8) -> u32 {
    if flags % 2 == 1 {
        0x0000FF00
    } else if (flags / 2) % 2 == 1 {
        0x00FF0000
    } else if (flags / 4) % 2 == 1 {
        0x000000FF
    } else {
        0x00FFFFFF
    }
}

impl MouseState {
    /// The cursor stays on the 1280x800 screen and the packet position is 0, 1 or 2.
    pub open spec fn wf(&self) -> bool {
        0 <= self.x <= 1279 && 0 <= self.y <= 799 && self.cycle <= 2
    }

    /// Waiting for the first byte of a packet, cursor at (400, 300), white.
    pub fn new() -> (r: MouseState)
        ensures
            r.wf(),
            r.cycle == 0,
            r.x == 400 && r.y == 300 && r.color == 0x00FFFFFF,
    {
        MouseState { cycle: 0, packet: [0u8; 3], x: 400, y: 300, color: 0x00FFFFFF }
    }

    /// Handles one byte from the mouse. The first byte of a packet must have bit 3 set (else
    /// it is skipped); after the third byte the cursor moves by the packet's signed
    /// movements (up for positive y), is kept on the screen, takes the colour of the held
    /// button, and a mouse event with the position and button bits is returned.
    pub fn handle_interrupt(&mut self, byte: u8) -> (r: Option<Event>)
        requires
            old(self).wf(),
        ensures
            final(self).wf(),
            old(self).cycle == 0 ==> r is None && final(self).x == old(self).x && final(self).y == old(self).y
                && final(self).cycle == (if (byte / 8) % 2 == 1 { 1u8 } else { 0u8 })
                && ((byte / 8) % 2 == 1 ==> final(self).packet@[0] == byte),
            old(self).cycle == 1 ==> r is None && final(self).cycle == 2 && final(self).packet@[1] == byte
                && final(self).packet@[0] == old(self).packet@[0] && final(self).color == old(self).color
                && final(self).x == old(self).x && final(self).y == old(self).y,
            old(self).cycle == 0 ==> final(self).color == old(self).color
                && ((byte / 8) % 2 != 1 ==> final(self).packet == old(self).packet),
            old(self).cycle == 2 ==> ({
                let flags = old(self).packet@[0];
                let nx = clamp(old(self).x + movement(old(self).packet@[1], (flags / 16) % 2 == 1), 0, 1279);
                let ny = clamp(old(self).y - movement(byte, (flags / 32) % 2 == 1), 0, 799);
                &&& final(self).cycle == 0
                &&& final(self).x == nx
                &&& final(self).y == ny
                &&& final(self).color == button_color(flags)
                &&& r == Some(Event { kind: 2, data1: nx as i32, data2: ny as i32, data3: (flags % 8) as i32 })
            }),
    {
        match self.cycle {
            0 => {
                if (byte & 0x08) == 0x08 {
                    self.packet[0] = byte;
                    self.cycle = 1;
                }
                assert(((byte & 0x08) == 0x08) == ((byte / 8) % 2 == 1)) by (bit_vector);
                None
            },
            1 => {
                self.packet[1] = byte;
                self.cycle = 2;
                None
            },
            _ => {
                self.packet[2] = byte;
                self.cycle = 0;
                let flags = self.packet[0];
                let mut x_move = self.packet[1] as i32;
                let mut y_move = self.packet[2] as i32;
                let b0 = (flags & 0x01) == 0x01;
                let b1 = (flags & 0x02) == 0x02;
                let b2 = (flags & 0x04) == 0x04;
                let sx = (flags & 0x10) == 0x10;
                let sy = (flags & 0x20) == 0x20;
                assert(b0 == (flags % 2 == 1) && b1 == ((flags / 2) % 2 == 1) && b2 == ((flags / 4) % 2
                    == 1) && sx == ((flags / 16) % 2 == 1) && sy == ((flags / 32) % 2 == 1)) by (bit_vector)
                    requires
                        b0 == ((flags & 0x01) == 0x01),
                        b1 == ((flags & 0x02) == 0x02),
                        b2 == ((flags & 0x04) == 0x04),
                        sx == ((flags & 0x10) == 0x10),
                        sy == ((flags & 0x20) == 0x20),
                ;
                if b0 {
                    self.color = 0x0000FF00;
                } else if b1 {
                    self.color = 0x00FF0000;
                } else if b2 {
                    self.color = 0x000000FF;
                } else {
                    self.color = 0x00FFFFFF;
                }
                if sx {
                    let xm = x_move | !0xFF;
                    assert(0 <= x_move <= 255 ==> (x_move | !0xFFi32) == x_move - 256) by (bit_vector);
                    x_move = xm;
                }
                if sy {
                    let ym = y_move | !0xFF;
                    assert(0 <= y_move <= 255 ==> (y_move | !0xFFi32) == y_move - 256) by (bit_vector);
                    y_move = ym;
                }
                self.x += x_move;
                self.y -= y_move;
                if self.x < 0 {
                    self.x = 0;
                }
                if self.y < 0 {
                    self.y = 0;
                }
                if self.x > 1280 - 1 {
                    self.x = 1280 - 1;
                }
                if self.y > 800 - 1 {
                    self.y = 800 - 1;
                }
                let buttons = (flags & 0x07) as i32;
                assert((flags & 0x07) == flags % 8) by (bit_vector);
                Some(Event { kind: 2, data1: self.x, data2: self.y, data3: buttons })
            },
        }
    }
}

} // verus!

verus! {

/// The 12 by 19 cursor shape, row by row: 0 transparent, 1 filled with the cursor colour, 2 the black
/// frame.
pub open spec fn cursor_map() -> Seq<u8> {
    seq![
        2u8, 2, 0, 0, 0, 0, 0, 0, 0, 0, 0, 0,
        2, 1, 2, 0, 0, 0, 0, 0, 0, 0, 0, 0,
        2, 1, 1, 2, 0, 0, 0, 0, 0, 0, 0, 0,
        2, 1, 1, 1, 2, 0, 0, 0, 0, 0, 0, 0,
        2, 1, 1, 1, 1, 2, 0, 0, 0, 0, 0, 0,
        2, 1, 1, 1, 1, 1, 2, 0, 0, 0, 0, 0,
        2, 1, 1, 1, 1, 1, 1, 2, 0, 0, 0, 0,
        2, 1, 1, 1, 1, 1, 1, 1, 2, 0, 0, 0,
        2, 1, 1, 1, 1, 1, 1, 1, 1, 2, 0, 0,
        2, 1, 1, 1, 1, 1, 1, 1, 1, 1, 2, 0,
        2, 1, 1, 1, 1, 1, 2, 2, 2, 2, 2, 2,
        2, 1, 1, 2, 1, 1, 2, 0, 0, 0, 0, 0,
        2, 1, 2, 0, 2, 1, 1, 2, 0, 0, 0, 0,
        2, 2, 0, 0, 2, 1, 1, 2, 0, 0, 0, 0,
        0, 0, 0, 0, 0, 2, 1, 1, 2, 0, 0, 0,
        0, 0, 0, 0, 0, 2, 1, 1, 2, 0, 0, 0,
        0, 0, 0, 0, 0, 0, 2, 1, 1, 2, 0, 0,
        0, 0, 0, 0, 0, 0, 2, 1, 1, 2, 0, 0,
        0, 0, 0, 0, 0, 0, 0, 2, 2, 0, 0, 0,
    ]
}

/// The cursor shape (see `cursor_map`).
pub fn cursor_mask() -> (r: Vec<u8>)
    ensures
        r@ == cursor_map(),
{
    let r: Vec<u8> = vec![
        2u8, 2, 0, 0, 0, 0, 0, 0, 0, 0, 0, 0,
        2, 1, 2, 0, 0, 0, 0, 0, 0, 0, 0, 0,
        2, 1, 1, 2, 0, 0, 0, 0, 0, 0, 0, 0,
        2, 1, 1, 1, 2, 0, 0, 0, 0, 0, 0, 0,
        2, 1, 1, 1, 1, 2, 0, 0, 0, 0, 0, 0,
        2, 1, 1, 1, 1, 1, 2, 0, 0, 0, 0, 0,
        2, 1, 1, 1, 1, 1, 1, 2, 0, 0, 0, 0,
        2, 1, 1, 1, 1, 1, 1, 1, 2, 0, 0, 0,
        2, 1, 1, 1, 1, 1, 1, 1, 1, 2, 0, 0,
        2, 1, 1, 1, 1, 1, 1, 1, 1, 1, 2, 0,
        2, 1, 1, 1, 1, 1, 2, 2, 2, 2, 2, 2,
        2, 1, 1, 2, 1, 1, 2, 0, 0, 0, 0, 0,
        2, 1, 2, 0, 2, 1, 1, 2, 0, 0, 0, 0,
        2, 2, 0, 0, 2, 1, 1, 2, 0, 0, 0, 0,
        0, 0, 0, 0, 0, 2, 1, 1, 2, 0, 0, 0,
        0, 0, 0, 0, 0, 2, 1, 1, 2, 0, 0, 0,
        0, 0, 0, 0, 0, 0, 2, 1, 1, 2, 0, 0,
        0, 0, 0, 0, 0, 0, 2, 1, 1, 2, 0, 0,
        0, 0, 0, 0, 0, 0, 0, 2, 2, 0, 0, 0,
    ];
    assert(r@ =~= cursor_map());
    r
}

/// The colour of each cursor cell: `color` for filled cells, black for the frame (and for
/// transparent cells, which are not drawn).
pub open spec fn cursor_colors(color: u32) -> Seq<u32> {
    Seq::new(228, |i: int| if cursor_map()[i] == 1 { color } else { 0u32 })
}

/// The pixels of `pixels` (rows `stride` apart, `width` by `height` visible) under a cursor at
/// `(x, y)`, row by row; cells off the surface read as 0.
pub open spec fn grabbed(pixels: Seq<u32>, stride: int, width: int, height: int, x: int, y: int) -> Seq<u32> {
    Seq::new(
        228,
        |i: int|
            if x + i % 12 < width && y + i / 12 < height {
                pixels[idx(x + i % 12, y + i / 12, stride)]
            } else {
                0u32
            },
    )
}

/// The cursor position for a pointer at `(mx, my)` on a surface `width` by `height`: kept at
/// least 0 and at most the last position where the whole cursor fits.
pub open spec fn cursor_pos(mx: i32, my: i32, width: int, height: int) -> (int, int) {
    let x = if mx < 0 { 0 } else { mx as int };
    let y = if my < 0 { 0 } else { my as int };
    (if x > width - 12 { width - 12 } else { x }, if y > height - 19 { height - 19 } else { y })
}

/// What lies under the cursor: where it was last drawn, whether it has been drawn yet, and
/// the pixels it covers.
pub struct CursorOverlay {
    pub old_x: usize,
    pub old_y: usize,
    pub first: bool,
    pub back: Vec<u32>,
}

impl CursorOverlay {
    /// A cursor not drawn yet, last at (400, 300).
    pub fn new() -> (r: CursorOverlay)
        ensures
            r.first,
            r.old_x == 400 && r.old_y == 300,
            r.back@ == Seq::new(228, |i: int| 0u32),
    {
        let mut back: Vec<u32> = Vec::new();
        let mut i: usize = 0;
        while i < 228
            invariant
                i <= 228,
                back@ == Seq::new(i as nat, |k: int| 0u32),
            decreases 228 - i,
        {
            back.push(0);
            i = i + 1;
        }
        CursorOverlay { old_x: 400, old_y: 300, first: true, back }
    }

    /// The surface `old` with the cursor last drawn taken off it: the pixels saved under it
    /// put back where its shape is not transparent (nothing to do before the first drawing).
    pub open spec fn restored(&self, old: &Renderer, mid: Seq<u32>) -> bool {
        if self.first {
            mid == old.pixels@
        } else {
            copied(mid, old.pixels@, old.stride as int, old.width as int, old.height as int,
                |px: int, py: int| self.old_x <= px < self.old_x + 12 && self.old_y <= py < self.old_y + 19
                    && cursor_map()[(py - self.old_y) * 12 + (px - self.old_x)] != 0,
                |px: int, py: int| self.back@[(py - self.old_y) * 12 + (px - self.old_x)])
        }
    }

    /// Draws the cursor for a pointer at `(mx, my)` in `color`: takes the cursor last drawn
    /// off the surface, saves the pixels under the new position, and draws the shape there.
    /// Returns the position used (see `cursor_pos`).
    pub fn render(&mut self, r: &mut Renderer, mx: i32, my: i32, color: u32) -> (pos: (usize, usize))
        requires
            old(self).back@.len() == 228,
            old(self).old_x + 12 <= usize::MAX,
            old(self).old_y + 19 <= usize::MAX,
            old(r).wf(),
            12 <= old(r).width <= 0x7fff_ffff,
            19 <= old(r).height <= 0x7fff_ffff,
        ensures
            old(r).keeps(final(r)),
            (pos.0 as int, pos.1 as int) == cursor_pos(mx, my, old(r).width as int, old(r).height as int),
            final(self).old_x == pos.0 && final(self).old_y == pos.1,
            !final(self).first,
            exists|mid: Seq<u32>| #[trigger] old(self).restored(old(r), mid)
                && final(self).back@ == grabbed(mid, old(r).stride as int, old(r).width as int, old(r).height as int, pos.0 as int, pos.1 as int)
                && copied(final(r).pixels@, mid, old(r).stride as int, old(r).width as int, old(r).height as int,
                    |px: int, py: int| pos.0 <= px < pos.0 + 12 && pos.1 <= py < pos.1 + 19
                        && cursor_map()[(py - pos.1) * 12 + (px - pos.0)] != 0,
                    |px: int, py: int| cursor_colors(color)[(py - pos.1) * 12 + (px - pos.0)]),
    {
        let w = r.width as i32;
        let h = r.height as i32;
        let mut x = mx;
        let mut y = my;
        if x < 0 {
            x = 0;
        }
        if y < 0 {
            y = 0;
        }
        if x > w - 12 {
            x = w - 12;
        }
        if y > h - 19 {
            y = h - 19;
        }
        let nx = x as usize;
        let ny = y as usize;
        let mask = cursor_mask();
        if !self.first {
            r.draw_masked(self.old_x, self.old_y, 12, 19, mask.as_slice(), self.back.as_slice());
        }
        let ghost mid = r.pixels@;
        assert(old(self).restored(old(r), mid));
        let mut back: Vec<u32> = Vec::new();
        let mut i: usize = 0;
        while i < 228
            invariant
                i <= 228,
                r.wf(),
                r.pixels@ == mid,
                r.stride == old(r).stride && r.width == old(r).width && r.height == old(r).height,
                nx + 12 <= r.width,
                ny + 19 <= r.height,
                back@ == grabbed(mid, r.stride as int, r.width as int, r.height as int, nx as int, ny as int).subrange(0, i as int),
            decreases 228 - i,
        {
            let v = r.get_pixel(nx + i % 12, ny + i / 12);
            back.push(v);
            proof {
                assert(back@ =~= grabbed(mid, r.stride as int, r.width as int, r.height as int, nx as int, ny as int).subrange(0, i + 1));
            }
            i = i + 1;
        }
        assert(back@ =~= grabbed(mid, r.stride as int, r.width as int, r.height as int, nx as int, ny as int));
        let mut colors: Vec<u32> = Vec::new();
        let mut k: usize = 0;
        while k < 228
            invariant
                k <= 228,
                mask@ == cursor_map(),
                colors@ == cursor_colors(color).subrange(0, k as int),
            decreases 228 - k,
        {
            let c: u32 = if mask[k] == 1 {
                color
            } else {
                0
            };
            colors.push(c);
            proof {
                assert(colors@ =~= cursor_colors(color).subrange(0, k + 1));
            }
            k = k + 1;
        }
        assert(colors@ =~= cursor_colors(color));
        r.draw_masked(nx, ny, 12, 19, mask.as_slice(), colors.as_slice());
        self.back = back;
        self.old_x = nx;
        self.old_y = ny;
        self.first = false;
        (nx, ny)
    }
}

} // verus!
