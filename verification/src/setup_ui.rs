use vstd::prelude::*;
use crate::renderer::{Renderer, STEP, GLYPH, idx, text_state, painted};
use crate::rpe::Row;
use crate::text::{trim_range, trim};
use crate::bytes::slice_of;
use vstd::string::StringSliceAdditionalSpecFns;

verus! {

/// Whether the screens of the installation wizard fit on surface `r`: wider than 30 and at
/// least 96 pixels tall (so the panel and its text lie on it), and small enough that a
/// hundred times its size is a number.
pub open spec fn screen_ok(r: &Renderer) -> bool {
    &&& r.wf()
    &&& 31 <= r.width
    &&& 96 <= r.height
    &&& r.width * 100 <= usize::MAX
    &&& r.height * 100 <= usize::MAX
}

/// The window of the wizard on a `w` by `h` screen: 78% of the width and 74% of the height,
/// each at most the screen less 30 pixels, centred.
pub open spec fn outer_spec(w: int, h: int) -> (int, int, int, int) {
    let ow = if w * 78 / 100 < w - 30 { w * 78 / 100 } else { w - 30 };
    let oh = if h * 74 / 100 < h - 30 { h * 74 / 100 } else { h - 30 };
    ((w - ow) / 2, (h - oh) / 2, ow, oh)
}

/// The window of the wizard on surface `r`: see `outer_spec`.
pub fn outer_rect(r: &Renderer) -> (o: (usize, usize, usize, usize))
    requires
        screen_ok(r),
    ensures
        (o.0 as int, o.1 as int, o.2 as int, o.3 as int) == outer_spec(r.width as int, r.height as int),
        1 <= o.2,
        66 <= o.3,
        15 <= o.1,
        o.0 + o.2 <= r.width,
        o.1 + o.3 <= r.height,
{
    let w = r.width;
    let h = r.height;
    let a: usize = w * 78 / 100;
    let ow: usize = if a < w - 30 { a } else { w - 30 };
    let b: usize = h * 74 / 100;
    let oh: usize = if b < h - 30 { b } else { h - 30 };
    assert(a >= 24) by (nonlinear_arith)
        requires a == w * 78 / 100, w >= 31;
    assert(b >= 71) by (nonlinear_arith)
        requires b == h * 74 / 100, h >= 96;
    ((w - ow) / 2, (h - oh) / 2, ow, oh)
}

/// The colour of band `t` (0 to 39) of the background: each channel moves in 39 steps from
/// (74, 144, 217) at the top to (28, 62, 110) at the bottom.
pub open spec fn band_color(t: u32) -> u32 {
    let rr: u32 = (74 - (46 * t as int) / 39) as u32;
    let gg: u32 = (144 - (82 * t as int) / 39) as u32;
    let bb: u32 = (217 - (107 * t as int) / 39) as u32;
    (rr << 16u32) | (gg << 8u32) | bb
}

/// Whether row `y` of a screen `h` pixels tall lies in band `i` of forty.
pub open spec fn in_band(h: int, i: int, y: int) -> bool {
    h * i / 40 <= y < h * (i + 1) / 40
}

/// The background of the wizard: forty bands from light to dark blue down the screen.
pub fn bg(r: &mut Renderer)
    requires
        screen_ok(old(r)),
    ensures
        screen_ok(final(r)),
        old(r).same_frame(final(r)),
        final(r).cursor_x == old(r).cursor_x && final(r).cursor_y == old(r).cursor_y && final(r).color == old(r).color,
        forall|i: int, x: int, y: int|
            #![trigger final(r).at(x, y), in_band(old(r).height as int, i, y)]
            0 <= i < 40 && 0 <= x < old(r).width && in_band(old(r).height as int, i, y)
                ==> final(r).at(x, y) == band_color(i as u32),
        forall|x: int, y: int| old(r).width <= x < old(r).stride && 0 <= y < old(r).height
            ==> #[trigger] final(r).at(x, y) == old(r).at(x, y),
{
    let w = r.width;
    let h = r.height;
    let bands: usize = 40;
    let mut i: usize = 0;
    while i < bands
        invariant
            screen_ok(r),
            old(r).same_frame(r),
            w == r.width,
            h == r.height,
            bands == 40,
            i <= bands,
            r.cursor_x == old(r).cursor_x && r.cursor_y == old(r).cursor_y && r.color == old(r).color,
            forall|j: int, x: int, y: int|
                #![trigger r.at(x, y), in_band(h as int, j, y)]
                0 <= j < i && 0 <= x < w && in_band(h as int, j, y) ==> r.at(x, y) == band_color(j as u32),
            forall|x: int, y: int| w <= x < r.stride && 0 <= y < h ==> #[trigger] r.at(x, y) == old(r).at(x, y),
            r.stride == old(r).stride,
        decreases bands - i,
    {
        let t: u32 = i as u32;
        let d: u32 = bands as u32 - 1;
        assert((46 * t as int) / (d as int) <= 46 && (82 * t as int) / (d as int) <= 82 && (107 * t as int) / (d as int) <= 107) by (nonlinear_arith)
            requires t <= 39, d == 39;
        let rr: u32 = 74 - (74 - 28) * t / d;
        let gg: u32 = 144 - (144 - 62) * t / d;
        let bb: u32 = 217 - (217 - 110) * t / d;
        let col: u32 = (rr << 16u32) | (gg << 8u32) | bb;
        assert(h * i <= h * 40 && h * (i + 1) <= h * 40) by (nonlinear_arith)
            requires i < 40, h >= 0;
        let y: usize = h * i / bands;
        let y2: usize = h * (i + 1) / bands;
        assert(y <= y2 && y2 <= h) by (nonlinear_arith)
            requires y == h * i / 40, y2 == h * (i + 1) / 40, i < 40, h >= 0;
        let ghost before = *r;
        r.fill_rect(0, y, w, y2 - y, col);
        proof {
            assert(col == band_color(t));
            assert forall|j: int, x: int, yy: int|
                #![trigger r.at(x, yy), in_band(h as int, j, yy)]
                0 <= j < i + 1 && 0 <= x < w && in_band(h as int, j, yy) implies r.at(x, yy) == band_color(j as u32) by {
                assert(r.at(x, yy) == r.pixels@[idx(x, yy, r.stride as int)]);
                if j < i {
                    vstd::arithmetic::mul::lemma_mul_inequality(j + 1, i as int, h as int);
                    vstd::arithmetic::div_mod::lemma_div_is_ordered(h * (j + 1), h * i, 40);
                    assert(before.at(x, yy) == band_color(j as u32));
                    assert(yy < y);
                } else {
                    assert(j == i);
                }
            }
            assert forall|x: int, yy: int| w <= x < r.stride && 0 <= yy < h implies #[trigger] r.at(x, yy) == old(r).at(x, yy) by {
                assert(before.at(x, yy) == old(r).at(x, yy));
            }
        }
        i = i + 1;
    }
}

/// `p`, the pixels of a surface with rows `stride` apart and `width` visible columns, with
/// the visible pixels of `f` painted `color`.
pub open spec fn paint(p: Seq<u32>, stride: int, width: int, f: spec_fn(int, int) -> bool, color: u32) -> Seq<u32> {
    Seq::new(p.len(), |i: int| if f(i % stride, i / stride) && i % stride < width { color } else { p[i] })
}

/// What `painted` says of the new pixels is `paint` of the old.
proof fn lemma_painted_is(new: Seq<u32>, old: Seq<u32>, stride: int, width: int, height: int, f: spec_fn(int, int) -> bool, color: u32)
    requires
        painted(new, old, stride, width, height, f, color),
        old.len() == stride * height,
        stride > 0,
    ensures
        new == paint(old, stride, width, f, color),
{
    assert forall|i: int| 0 <= i < new.len() implies new[i] == paint(old, stride, width, f, color)[i] by {
        let x = i % stride;
        let y = i / stride;
        vstd::arithmetic::div_mod::lemma_fundamental_div_mod(i, stride);
        assert(0 <= x < stride);
        assert(0 <= y < height) by (nonlinear_arith)
            requires
                i == stride * y + x,
                0 <= x < stride,
                0 <= i < stride * height,
                stride > 0,
        ;
        assert(idx(x, y, stride) == i) by (nonlinear_arith)
            requires
                i == stride * y + x,
        ;
        assert(new[idx(x, y, stride)] == (if f(x, y) && x < width { color } else { old[idx(x, y, stride)] }));
    }
    assert(new =~= paint(old, stride, width, f, color));
}

/// The band of forty that row `y` of a screen `h` pixels tall lies in.
pub open spec fn band_of(h: int, y: int) -> int {
    choose|b: int| 0 <= b < 40 && in_band(h, b, y)
}

/// Every row of the screen lies in a band.
proof fn lemma_band_from(h: int, y: int, b: int)
    requires
        0 <= b <= 40,
        h * b / 40 <= y < h,
        h >= 0,
    ensures
        exists|c: int| 0 <= c < 40 && in_band(h, c, y),
    decreases 40 - b,
{
    assert(h * 40 / 40 == h);
    if b == 40 {
    } else if y < h * (b + 1) / 40 {
        assert(in_band(h, b, y));
    } else {
        lemma_band_from(h, y, b + 1);
    }
}

/// The pixels after `bg`: each visible pixel in the colour of its row's band, the rest as in
/// `p`.
pub open spec fn bg_pixels(p: Seq<u32>, stride: int, width: int, height: int) -> Seq<u32> {
    Seq::new(p.len(), |i: int| if i % stride < width { band_color(band_of(height, i / stride) as u32) } else { p[i] })
}

/// The rectangle `w` by `h` from `(x, y)`.
pub open spec fn rect_area(x: int, y: int, w: int, h: int) -> spec_fn(int, int) -> bool {
    |px: int, py: int| x <= px < x + w && y <= py < y + h
}

/// The outline of the rectangle `w` by `h` from `(x, y)`.
pub open spec fn rect_outline(x: int, y: int, w: int, h: int) -> spec_fn(int, int) -> bool {
    |px: int, py: int| (x <= px < x + w && (py == y || py == y + h - 1)) || (y <= py < y + h && (px == x || px == x + w - 1))
}

/// The pixels after `panel` draws the wizard's window titled `title` over `p` (see `bg`,
/// `outer_spec`): its shadow, body, border, title bar and the bar's lower edge, and the title.
pub open spec fn panel_pixels(p: Seq<u32>, stride: int, width: int, height: int, title: Seq<char>, font: Seq<[u8; 8]>) -> Seq<u32> {
    let (ox, oy, ow, oh) = outer_spec(width, height);
    let p0 = bg_pixels(p, stride, width, height);
    let p1 = paint(p0, stride, width, rect_area(ox + 6, oy + 6, ow, oh), 0x0010_2840);
    let p2 = paint(p1, stride, width, rect_area(ox, oy, ow, oh), 0x00F2_F2F2);
    let p3 = paint(p2, stride, width, rect_outline(ox, oy, ow, oh), 0x0080_8080);
    let p4 = paint(p3, stride, width, rect_area(ox, oy, ow, 34), 0x00D8_E4F0);
    let p5 = paint(p4, stride, width, rect_area(ox, oy + 34, ow, 1), 0x00A0_B0C0);
    text_state((p5, ox + 16, oy + 9), title, font, stride, width, height, 0x001A_3A6A).0
}

/// Draws the wizard's window titled `title` over the background, and gives the area below
/// its title bar: left, top, width, height.
pub fn panel(r: &mut Renderer, title: &str, font: &[[u8; 8]]) -> (p: (usize, usize, usize, usize))
    requires
        screen_ok(old(r)),
        font@.len() == 95,
    ensures
        screen_ok(final(r)),
        old(r).same_frame(final(r)),
        ({
            let o = outer_spec(old(r).width as int, old(r).height as int);
            (p.0 as int, p.1 as int, p.2 as int, p.3 as int) == (o.0, o.1 + 44, o.2, o.3 - 44)
        }),
        p.0 + p.2 <= old(r).width,
        p.1 + p.3 <= old(r).height,
        59 <= p.1,
        22 <= p.3,
        final(r).pixels@ == panel_pixels(
            old(r).pixels@,
            old(r).stride as int,
            old(r).width as int,
            old(r).height as int,
            title@,
            font@,
        ),
        final(r).color == 0x001A_3A6A,
{
    let ghost st = old(r).stride as int;
    let ghost w = old(r).width as int;
    let ghost h = old(r).height as int;
    bg(r);
    proof {
        let p = old(r).pixels@;
        assert forall|i: int| 0 <= i < r.pixels@.len() implies r.pixels@[i] == bg_pixels(p, st, w, h)[i] by {
            let x = i % st;
            let y = i / st;
            vstd::arithmetic::div_mod::lemma_fundamental_div_mod(i, st);
            assert(0 <= y < h) by (nonlinear_arith)
                requires
                    i == st * y + x,
                    0 <= x < st,
                    0 <= i < st * h,
                    st > 0,
            ;
            assert(idx(x, y, st) == i) by (nonlinear_arith)
                requires
                    i == st * y + x,
            ;
            assert(r.at(x, y) == r.pixels@[i]);
            assert(old(r).at(x, y) == p[i]);
            if x < w {
                lemma_band_from(h, y, 0);
                let b = band_of(h, y);
                assert(0 <= b < 40 && in_band(h, b, y));
                assert(r.at(x, y) == band_color(b as u32));
            }
        }
        assert(r.pixels@ =~= bg_pixels(p, st, w, h));
    }
    let (ox, oy, ow, oh) = outer_rect(r);
    let ghost q0 = r.pixels@;
    r.fill_rect(ox + 6, oy + 6, ow, oh, 0x0010_2840);
    proof {
        lemma_painted_is(r.pixels@, q0, st, w, h, |px: int, py: int| ox + 6 <= px < ox + 6 + ow && oy + 6 <= py < oy + 6 + oh, 0x0010_2840);
        assert(paint(q0, st, w, |px: int, py: int| ox + 6 <= px < ox + 6 + ow && oy + 6 <= py < oy + 6 + oh, 0x0010_2840)
            =~= paint(q0, st, w, rect_area(ox + 6, oy + 6, ow as int, oh as int), 0x0010_2840));
    }
    let ghost q1 = r.pixels@;
    r.fill_rect(ox, oy, ow, oh, 0x00F2_F2F2);
    proof {
        lemma_painted_is(r.pixels@, q1, st, w, h, |px: int, py: int| ox <= px < ox + ow && oy <= py < oy + oh, 0x00F2_F2F2);
        assert(paint(q1, st, w, |px: int, py: int| ox <= px < ox + ow && oy <= py < oy + oh, 0x00F2_F2F2)
            =~= paint(q1, st, w, rect_area(ox as int, oy as int, ow as int, oh as int), 0x00F2_F2F2));
    }
    let ghost q2 = r.pixels@;
    r.draw_rect(ox, oy, ow, oh, 0x0080_8080);
    proof {
        lemma_painted_is(r.pixels@, q2, st, w, h, |px: int, py: int|
            (ox <= px < ox + ow && (py == oy || py == oy + oh - 1)) || (oy <= py < oy + oh && (px == ox || px == ox + ow - 1)), 0x0080_8080);
        assert(paint(q2, st, w, |px: int, py: int|
            (ox <= px < ox + ow && (py == oy || py == oy + oh - 1)) || (oy <= py < oy + oh && (px == ox || px == ox + ow - 1)), 0x0080_8080)
            =~= paint(q2, st, w, rect_outline(ox as int, oy as int, ow as int, oh as int), 0x0080_8080));
    }
    let ghost q3 = r.pixels@;
    r.fill_rect(ox, oy, ow, 34, 0x00D8_E4F0);
    proof {
        lemma_painted_is(r.pixels@, q3, st, w, h, |px: int, py: int| ox <= px < ox + ow && oy <= py < oy + 34, 0x00D8_E4F0);
        assert(paint(q3, st, w, |px: int, py: int| ox <= px < ox + ow && oy <= py < oy + 34, 0x00D8_E4F0)
            =~= paint(q3, st, w, rect_area(ox as int, oy as int, ow as int, 34), 0x00D8_E4F0));
    }
    let ghost q4 = r.pixels@;
    r.draw_hline(ox, oy + 34, ow, 0x00A0_B0C0);
    proof {
        lemma_painted_is(r.pixels@, q4, st, w, h, |px: int, py: int| py == oy + 34 && ox <= px < ox + ow, 0x00A0_B0C0);
        assert(paint(q4, st, w, |px: int, py: int| py == oy + 34 && ox <= px < ox + ow, 0x00A0_B0C0)
            =~= paint(q4, st, w, rect_area(ox as int, oy + 34, ow as int, 1), 0x00A0_B0C0));
    }
    r.set_color(0x001A_3A6A);
    r.text_at(ox + 16, oy + 9, title, font);
    (ox, oy + 44, ow, oh - 44)
}

/// The column where a text of `n` bytes centred on column `cx` starts: nine pixels a byte
/// to the left of it, not before column 0.
pub open spec fn centered_x(cx: int, n: int) -> int {
    let half = if n > usize::MAX / 9 { usize::MAX as int } else { n * 9 };
    if cx > half { cx - half } else { 0 }
}

/// Writes `s` in colour `col` centred on column `cx` at row `y` (each byte counted as nine
/// pixels, half a glyph step).
pub fn text_center(r: &mut Renderer, cx: usize, y: usize, s: &str, col: u32, font: &[[u8; 8]])
    requires
        screen_ok(old(r)),
        font@.len() == 95,
        cx <= old(r).width,
        y <= old(r).height * 2,
    ensures
        screen_ok(final(r)),
        old(r).same_frame(final(r)),
        final(r).color == col,
        final(r).state() == text_state(
            (old(r).pixels@, centered_x(cx as int, s.spec_bytes().len() as int), y as int),
            s@,
            font@,
            old(r).stride as int,
            old(r).width as int,
            old(r).height as int,
            col,
        ),
{
    let n: usize = s.as_bytes().len();
    let half: usize = if n > usize::MAX / 9 { usize::MAX } else { n * 9 };
    let x: usize = if cx > half { cx - half } else { 0 };
    assert(x == centered_x(cx as int, s.spec_bytes().len() as int));
    r.set_color(col);
    assert(r.pixels@ == old(r).pixels@);
    r.text_at(x, y, s, font);
}

/// Writes the bytes `s` in colour `col` centred on column `cx` at row `y`, as `text_center`.
pub fn text_center_bytes(r: &mut Renderer, cx: usize, y: usize, s: &[u8], col: u32, font: &[[u8; 8]])
    requires
        screen_ok(old(r)),
        font@.len() == 95,
        cx <= old(r).width,
        y <= old(r).height * 2,
    ensures
        screen_ok(final(r)),
        old(r).same_frame(final(r)),
        final(r).color == col,
        final(r).state() == text_state(
            (old(r).pixels@, centered_x(cx as int, s@.len() as int), y as int),
            s@.map_values(|b: u8| b as char),
            font@,
            old(r).stride as int,
            old(r).width as int,
            old(r).height as int,
            col,
        ),
{
    let n: usize = s.len();
    let half: usize = if n > usize::MAX / 9 { usize::MAX } else { n * 9 };
    let x: usize = if cx > half { cx - half } else { 0 };
    r.set_color(col);
    r.cursor_x = x;
    r.cursor_y = y;
    r.text_bytes(s, font);
}

/// The state after the text `s` of `nbytes` bytes is written in `col` centred on column
/// `cx` at row `y` over the pixels of `st` (see `text_center`).
pub open spec fn centred(st: (Seq<u32>, int, int), cx: int, y: int, s: Seq<char>, nbytes: int, font: Seq<[u8; 8]>, stride: int, width: int, height: int, col: u32) -> (Seq<u32>, int, int) {
    text_state((st.0, centered_x(cx, nbytes), y), s, font, stride, width, height, col)
}

/// The area below the window's title bar on a `w` by `h` screen: left, top, width, height.
pub open spec fn body_spec(w: int, h: int) -> (int, int, int, int) {
    let (ox, oy, ow, oh) = outer_spec(w, h);
    (ox, oy + 44, ow, oh - 44)
}

/// The welcome screen over the pixels `p`: the window titled `Rusty Kurulum` and four lines.
pub open spec fn welcome_state(p: Seq<u32>, stride: int, w: int, h: int, font: Seq<[u8; 8]>) -> (Seq<u32>, int, int) {
    let (px, py, pw, ph) = body_spec(w, h);
    let cx = px + pw / 2;
    let s0 = (panel_pixels(p, stride, w, h, "Rusty Kurulum"@, font), 0, 0);
    let s1 = centred(s0, cx, py + ph / 2 - 70, "Rusty OS"@, "Rusty OS".spec_bytes().len() as int, font, stride, w, h, 0x00E0_600A);
    let s2 = centred(s1, cx, py + ph / 2 - 30, "Welcome to Setup"@, "Welcome to Setup".spec_bytes().len() as int, font, stride, w, h, 0x0020_2020);
    let t3 = "This setup will install Rusty OS to a partition..";
    let s3 = centred(s2, cx, py + ph / 2 + 20, t3@, t3.spec_bytes().len() as int, font, stride, w, h, 0x0050_5050);
    centred(s3, cx, py + ph - 40, "Press ENTER to continue."@, "Press ENTER to continue.".spec_bytes().len() as int, font, stride, w, h, 0x0020_4080)
}

/// The confirmation screen over the pixels `p` for the partition whose lines are `line1`
/// (shown trimmed) and `line2`.
pub open spec fn confirm_state(p: Seq<u32>, stride: int, w: int, h: int, font: Seq<[u8; 8]>, line1: Seq<u8>, line2: Seq<u8>) -> (Seq<u32>, int, int) {
    let (px, py, pw, ph) = body_spec(w, h);
    let cx = px + pw / 2;
    let s0 = (panel_pixels(p, stride, w, h, "FINAL APPROVAL - ATTENTION"@, font), 0, 0);
    let t1 = "This partition will be formatted and Rusty will be installed:";
    let s1 = centred(s0, cx, py + 24, t1@, t1.spec_bytes().len() as int, font, stride, w, h, 0x0030_3030);
    let l1 = trim(line1);
    let s2 = centred(s1, cx, py + 62, l1.map_values(|b: u8| b as char), l1.len() as int, font, stride, w, h, 0x00B0_2020);
    let s3 = centred(s2, cx, py + 92, line2.map_values(|b: u8| b as char), line2.len() as int, font, stride, w, h, 0x0040_4040);
    let t4 = "Other partitions (Windows/Linux/EFI) will NOT be touched.";
    let s4 = centred(s3, cx, py + ph / 2 + 20, t4@, t4.spec_bytes().len() as int, font, stride, w, h, 0x002E_7D32);
    let t5 = "But ALL data in this partition will be deleted!";
    let s5 = centred(s4, cx, py + ph / 2 + 50, t5@, t5.spec_bytes().len() as int, font, stride, w, h, 0x00B0_2020);
    let t6 = "ENTER: INSTALL       ESC: Cancel";
    centred(s5, cx, py + ph - 40, t6@, t6.spec_bytes().len() as int, font, stride, w, h, 0x0020_4080)
}

/// The error screen over the pixels `p` for the message `msg` of `nbytes` bytes.
pub open spec fn error_state(p: Seq<u32>, stride: int, w: int, h: int, font: Seq<[u8; 8]>, msg: Seq<char>, nbytes: int) -> (Seq<u32>, int, int) {
    let (px, py, pw, ph) = body_spec(w, h);
    let cx = px + pw / 2;
    let s0 = (panel_pixels(p, stride, w, h, "Installation Error"@, font), 0, 0);
    let t1 = "Error during installation:";
    let s1 = centred(s0, cx, py + ph / 2 - 20, t1@, t1.spec_bytes().len() as int, font, stride, w, h, 0x00B0_2020);
    let s2 = centred(s1, cx, py + ph / 2 + 20, msg, nbytes, font, stride, w, h, 0x0030_3030);
    let t3 = "Press ENTER to continue";
    centred(s2, cx, py + ph - 40, t3@, t3.spec_bytes().len() as int, font, stride, w, h, 0x0020_4080)
}

/// The welcome screen.
pub fn welcome(r: &mut Renderer, font: &[[u8; 8]])
    requires
        screen_ok(old(r)),
        font@.len() == 95,
    ensures
        screen_ok(final(r)),
        old(r).same_frame(final(r)),
        final(r).state() == welcome_state(old(r).pixels@, old(r).stride as int, old(r).width as int, old(r).height as int, font@),
{
    let (px, py, pw, ph) = panel(r, "Rusty Kurulum", font);
    let cx = px + pw / 2;
    text_center(r, cx, py + ph / 2 - 70, "Rusty OS", 0x00E0_600A, font);
    text_center(r, cx, py + ph / 2 - 30, "Welcome to Setup", 0x0020_2020, font);
    text_center(r, cx, py + ph / 2 + 20, "This setup will install Rusty OS to a partition..", 0x0050_5050, font);
    text_center(r, cx, py + ph - 40, "Press ENTER to continue.", 0x0020_4080, font);
}

/// The final confirmation for installing on the partition of `row`: its two lines, the
/// first trimmed, and the warnings.
pub fn confirm_part(r: &mut Renderer, row: &Row, font: &[[u8; 8]])
    requires
        screen_ok(old(r)),
        font@.len() == 95,
    ensures
        screen_ok(final(r)),
        old(r).same_frame(final(r)),
        final(r).state() == confirm_state(old(r).pixels@, old(r).stride as int, old(r).width as int, old(r).height as int, font@, row.line1@, row.line2@),
{
    let (px, py, pw, ph) = panel(r, "FINAL APPROVAL - ATTENTION", font);
    let cx = px + pw / 2;
    text_center(r, cx, py + 24, "This partition will be formatted and Rusty will be installed:", 0x0030_3030, font);
    let (a, b) = trim_range(row.line1.as_slice(), 0, row.line1.len());
    let l1 = slice_of(row.line1.as_slice(), a, b);
    assert(row.line1@.subrange(0, row.line1@.len() as int) =~= row.line1@);
    text_center_bytes(r, cx, py + 62, l1.as_slice(), 0x00B0_2020, font);
    text_center_bytes(r, cx, py + 92, row.line2.as_slice(), 0x0040_4040, font);
    text_center(r, cx, py + ph / 2 + 20, "Other partitions (Windows/Linux/EFI) will NOT be touched.", 0x002E_7D32, font);
    text_center(r, cx, py + ph / 2 + 50, "But ALL data in this partition will be deleted!", 0x00B0_2020, font);
    text_center(r, cx, py + ph - 40, "ENTER: INSTALL       ESC: Cancel", 0x0020_4080, font);
}

/// The screen that reports the installation error `msg`.
pub fn error_screen(r: &mut Renderer, msg: &str, font: &[[u8; 8]])
    requires
        screen_ok(old(r)),
        font@.len() == 95,
    ensures
        screen_ok(final(r)),
        old(r).same_frame(final(r)),
        final(r).state() == error_state(old(r).pixels@, old(r).stride as int, old(r).width as int, old(r).height as int, font@, msg@, msg.spec_bytes().len() as int),
{
    let (px, py, pw, ph) = panel(r, "Installation Error", font);
    let cx = px + pw / 2;
    text_center(r, cx, py + ph / 2 - 20, "Error during installation:", 0x00B0_2020, font);
    text_center(r, cx, py + ph / 2 + 20, msg, 0x0030_3030, font);
    text_center(r, cx, py + ph - 40, "Press ENTER to continue", 0x0020_4080, font);
}

} // verus!
