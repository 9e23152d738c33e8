use vstd::prelude::*;

verus! {

/// Side of the square logo the boot animation draws, in pixels.
pub const LOGO_SIDE: usize = 200;

/// Sine in hundredths over the first quarter turn, at 16 steps of it.
pub open spec fn quarter_sin(j: int) -> int {
    seq![0int, 9, 19, 29, 38, 47, 55, 63, 70, 77, 83, 88, 92, 95, 98, 99, 100][j]
}

/// Sine in hundredths at step `i` of 64 steps of a full turn.
pub open spec fn sin_spec(i: int) -> int {
    if i < 16 {
        quarter_sin(i)
    } else if i < 32 {
        quarter_sin(32 - i)
    } else if i < 48 {
        -quarter_sin(i - 32)
    } else {
        -quarter_sin(64 - i)
    }
}

/// `a / 100`, rounded towards zero.
pub open spec fn hundredth(a: int) -> int {
    if a >= 0 { a / 100 } else { -((-a) / 100) }
}

/// Colour of orb `k` (0 to 3): orange, gold, dark red, light grey.
pub open spec fn orb_color(k: int) -> u32 {
    if k == 0 { 0x00FF8C00 } else if k == 1 { 0x00FFD700 } else if k == 2 { 0x008B0000 } else { 0x00E0E0E0 }
}

/// Centre of orb `k` at `frame` (below 60): the orbs, a quarter turn apart, circle the
/// logo's centre on a radius shrinking from 70 to 0, turning two steps a frame.
pub open spec fn orb_center(frame: int, k: int) -> (int, int) {
    let r = 70 - frame * 70 / 60;
    let idx = (16 * k + (frame * 2) % 64) % 64;
    (100 + hundredth(r * sin_spec((idx + 16) % 64)), 100 + hundredth(r * sin_spec(idx)))
}

/// Whether `(px, py)` lies on orb `k` at `frame`: within 12 pixels of its centre.
pub open spec fn on_orb(frame: int, k: int, px: int, py: int) -> bool {
    let (ox, oy) = orb_center(frame, k);
    (px - ox) * (px - ox) + (py - oy) * (py - oy) <= 144
}

/// The rows of the `R` the animation ends on, sixteen bits each, the leftmost column in
/// the top bit.
pub open spec fn r_mask(row: int) -> u16 {
    seq![
        0b0111111111100000u16, 0b0111111111111000, 0b0111000000011100, 0b0111000000001110,
        0b0111000000001110, 0b0111000000011100, 0b0111111111111000, 0b0111111111100000,
        0b0111000011100000, 0b0111000001110000, 0b0111000000111000, 0b0111000000011100,
        0b0111000000001110, 0b0111000000000111, 0b0000000000000000, 0b0000000000000000
    ][row]
}

/// Colour of row `row` of the `R`: light gold above the middle, orange on it, and below it
/// red turning from orange, green falling by 15 a row.
pub open spec fn r_color(row: int) -> u32 {
    if row < 7 {
        0x00FF_DD66
    } else if row == 7 {
        0x00FF_AA00
    } else {
        let green: u32 = if 150 >= (row - 8) * 15 { (150 - (row - 8) * 15) as u32 } else { 0 };
        (255u32 << 16u32) | (green << 8u32)
    }
}

/// Colour of pixel `(px, py)` of the logo at `frame` (at most 100): up to frame 59 the four
/// orbs on black, a later orb drawn over an earlier one; frames 60 to 64 a white disc growing
/// from radius 15 by 8 a frame; then the `R`, each bit of its mask a 6 by 6 square from
/// (52, 52) on.
pub open spec fn anim_pixel_spec(frame: int, px: int, py: int) -> u32 {
    if frame < 60 {
        if on_orb(frame, 3, px, py) {
            orb_color(3)
        } else if on_orb(frame, 2, px, py) {
            orb_color(2)
        } else if on_orb(frame, 1, px, py) {
            orb_color(1)
        } else if on_orb(frame, 0, px, py) {
            orb_color(0)
        } else {
            0
        }
    } else if frame < 65 {
        let radius = 15 + (frame - 60) * 8;
        if (px - 100) * (px - 100) + (py - 100) * (py - 100) <= radius * radius { 0x00FF_FFFF } else { 0 }
    } else if 52 <= px < 148 && 52 <= py < 148 {
        let col = (px - 52) / 6;
        let row = (py - 52) / 6;
        if (r_mask(row) >> (15 - col) as u16) & 1 == 1 { r_color(row) } else { 0 }
    } else {
        0
    }
}

/// The logo at `frame`, row by row.
pub open spec fn anim_frame_spec(frame: u32) -> Seq<u32> {
    Seq::new(40000, |i: int| anim_pixel_spec(frame as int, i % 200, i / 200))
}

/// Sine in hundredths at step `i` of 64.
fn sin_at(i: u32) -> (r: i32)
    requires
        i < 64,
    ensures
        r == sin_spec(i as int),
        -100 <= r <= 100,
{
    let q: [u8; 17] = [0, 9, 19, 29, 38, 47, 55, 63, 70, 77, 83, 88, 92, 95, 98, 99, 100];
    assert(q@ =~= seq![0u8, 9, 19, 29, 38, 47, 55, 63, 70, 77, 83, 88, 92, 95, 98, 99, 100]);
    assert(forall|j: int| 0 <= j < 17 ==> #[trigger] q@[j] as int == quarter_sin(j) && q@[j] <= 100);
    if i < 16 {
        q[i as usize] as i32
    } else if i < 32 {
        q[(32 - i) as usize] as i32
    } else if i < 48 {
        -(q[(i - 32) as usize] as i32)
    } else {
        -(q[(64 - i) as usize] as i32)
    }
}

/// `r * s / 100`, rounded towards zero, for a radius `r` of at most 70 and a sine `s`.
fn scaled(r: i32, s: i32) -> (v: i32)
    requires
        0 <= r <= 70,
        -100 <= s <= 100,
    ensures
        v == hundredth(r * s),
        -70 <= v <= 70,
{
    if s >= 0 {
        assert((r as u32) * (s as u32) <= 7000) by (nonlinear_arith)
            requires 0 <= r <= 70, 0 <= s <= 100;
        let p: u32 = (r as u32) * (s as u32);
        (p / 100) as i32
    } else {
        assert((r as u32) * ((-s) as u32) <= 7000) by (nonlinear_arith)
            requires 0 <= r <= 70, 0 <= -s <= 100;
        let p: u32 = (r as u32) * ((-s) as u32);
        assert(-(r * s) == p) by (nonlinear_arith)
            requires p == r * (-s);
        -((p / 100) as i32)
    }
}

/// Whether `(px, py)` lies on orb `k` at `frame` (below 60).
fn on_orb_at(frame: u32, k: u32, px: i32, py: i32) -> (b: bool)
    requires
        frame < 60,
        k < 4,
        0 <= px < 200,
        0 <= py < 200,
    ensures
        b == on_orb(frame as int, k as int, px as int, py as int),
{
    let r: i32 = 70 - (frame as i32 * 70 / 60);
    assert(0 <= frame * 70 / 60 <= 70) by (nonlinear_arith)
        requires frame < 60;
    let idx: u32 = (16 * k + (frame * 2) % 64) % 64;
    let ox: i32 = 100 + scaled(r, sin_at((idx + 16) % 64));
    let oy: i32 = 100 + scaled(r, sin_at(idx));
    let dx: i32 = px - ox;
    let dy: i32 = py - oy;
    assert(0 <= dx * dx <= 300 * 300 && 0 <= dy * dy <= 300 * 300) by (nonlinear_arith)
        requires -300 <= dx <= 300, -300 <= dy <= 300;
    let d2: i32 = dx * dx + dy * dy;
    d2 <= 144
}

/// Colour of pixel `(px, py)` of the logo at `frame`: see `anim_pixel_spec`.
pub fn anim_pixel(frame: u32, px: u32, py: u32) -> (c: u32)
    requires
        frame <= 100,
        px < 200,
        py < 200,
    ensures
        c == anim_pixel_spec(frame as int, px as int, py as int),
{
    if frame < 60 {
        let x = px as i32;
        let y = py as i32;
        if on_orb_at(frame, 3, x, y) {
            0x00E0E0E0
        } else if on_orb_at(frame, 2, x, y) {
            0x008B0000
        } else if on_orb_at(frame, 1, x, y) {
            0x00FFD700
        } else if on_orb_at(frame, 0, x, y) {
            0x00FF8C00
        } else {
            0
        }
    } else if frame < 65 {
        let radius: i32 = 15 + (frame as i32 - 60) * 8;
        let dx: i32 = px as i32 - 100;
        let dy: i32 = py as i32 - 100;
        assert(0 <= dx * dx <= 100 * 100 && 0 <= dy * dy <= 100 * 100 && radius * radius <= 100 * 100) by (nonlinear_arith)
            requires -100 <= dx <= 100, -100 <= dy <= 100, 0 <= radius <= 100;
        let d2: i32 = dx * dx + dy * dy;
        let r2: i32 = radius * radius;
        if d2 <= r2 { 0x00FF_FFFF } else { 0 }
    } else if 52 <= px && px < 148 && 52 <= py && py < 148 {
        let col: u32 = (px - 52) / 6;
        let row: u32 = (py - 52) / 6;
        let masks: [u16; 16] = [
            0b0111111111100000, 0b0111111111111000, 0b0111000000011100, 0b0111000000001110,
            0b0111000000001110, 0b0111000000011100, 0b0111111111111000, 0b0111111111100000,
            0b0111000011100000, 0b0111000001110000, 0b0111000000111000, 0b0111000000011100,
            0b0111000000001110, 0b0111000000000111, 0b0000000000000000, 0b0000000000000000,
        ];
        assert(masks@ =~= seq![
            0b0111111111100000u16, 0b0111111111111000, 0b0111000000011100, 0b0111000000001110,
            0b0111000000001110, 0b0111000000011100, 0b0111111111111000, 0b0111111111100000,
            0b0111000011100000, 0b0111000001110000, 0b0111000000111000, 0b0111000000011100,
            0b0111000000001110, 0b0111000000000111, 0b0000000000000000, 0b0000000000000000
        ]);
        let m: u16 = masks[row as usize];
        if (m >> (15 - col) as u16) & 1 == 1 {
            if row < 7 {
                0x00FF_DD66
            } else if row == 7 {
                0x00FF_AA00
            } else {
                let green: u32 = if 150 >= (row - 8) * 15 { 150 - (row - 8) * 15 } else { 0 };
                (255u32 << 16u32) | (green << 8u32)
            }
        } else {
            0
        }
    } else {
        0
    }
}

/// Draws the logo at `frame` into `buf` (200 by 200 pixels, row by row): see
/// `anim_frame_spec`. After frame 100 the animation is over and `buf` is left as it is.
pub fn boot_anim_frame(frame: u32, buf: &mut Vec<u32>)
    requires
        old(buf)@.len() == 40000,
    ensures
        frame > 100 ==> final(buf)@ == old(buf)@,
        frame <= 100 ==> final(buf)@ == anim_frame_spec(frame),
{
    if frame > 100 {
        return;
    }
    let mut i: usize = 0;
    while i < 40000
        invariant
            frame <= 100,
            buf@.len() == 40000,
            i <= 40000,
            forall|j: int| 0 <= j < i ==> buf@[j] == anim_pixel_spec(frame as int, j % 200, j / 200),
        decreases 40000 - i,
    {
        let c = anim_pixel(frame, (i % 200) as u32, (i / 200) as u32);
        buf.set(i, c);
        i = i + 1;
    }
    assert(buf@ =~= anim_frame_spec(frame));
}

} // verus!
