use vstd::prelude::*;

verus! {

/// How many screen pixels one glyph pixel covers, across and down.
pub const SCALE: usize = 2;

/// The side of a drawn glyph, in pixels.
pub const GLYPH: usize = 8 * SCALE;

/// How far the cursor moves past a glyph, and down past a line of text.
pub const STEP: usize = 8 * SCALE + SCALE;

/// The screen position of pixel `(x, y)` in a buffer whose rows are `stride` pixels apart.
pub open spec fn idx(x: int, y: int, stride: int) -> int {
    y * stride + x
}

/// Two positions of one row-major buffer are the same cell only when they name the same
/// row and column.
pub proof fn lemma_idx_injective(x1: int, y1: int, x2: int, y2: int, stride: int)
    requires
        stride > 0,
        0 <= x1 < stride,
        0 <= x2 < stride,
        idx(x1, y1, stride) == idx(x2, y2, stride),
    ensures
        x1 == x2,
        y1 == y2,
{
    vstd::arithmetic::div_mod::lemma_fundamental_div_mod_converse(idx(x1, y1, stride), stride, y1, x1);
    vstd::arithmetic::div_mod::lemma_fundamental_div_mod_converse(idx(x2, y2, stride), stride, y2, x2);
}

/// A cell of a buffer of `height` rows of `stride` pixels lies inside the buffer.
pub proof fn lemma_idx_bounds(x: int, y: int, stride: int, height: int)
    requires
        0 <= x < stride,
        0 <= y < height,
    ensures
        0 <= idx(x, y, stride) < stride * height,
{
    assert(y * stride + x < stride * height) by (nonlinear_arith)
        requires 0 <= x < stride, 0 <= y < height;
    assert(0 <= y * stride) by (nonlinear_arith)
        requires 0 <= x < stride, 0 <= y;
}

/// `new` is `old` with every visible pixel `(x, y)` (column below `width`) for which `f`
/// holds painted `color`, and every other pixel as it was.
pub open spec fn painted(
    new: Seq<u32>,
    old: Seq<u32>,
    stride: int,
    width: int,
    height: int,
    f: spec_fn(int, int) -> bool,
    color: u32,
) -> bool {
    &&& new.len() == old.len()
    &&& forall|x: int, y: int|
        0 <= x < stride && 0 <= y < height ==> #[trigger] new[idx(x, y, stride)] == (if f(x, y)
            && x < width { color } else { old[idx(x, y, stride)] })
}

/// Painting one more pixel `(a, b)` of a visible region extends the painted region by it.
proof fn lemma_paint_one(
    p: Seq<u32>,
    o: Seq<u32>,
    stride: int,
    width: int,
    height: int,
    f: spec_fn(int, int) -> bool,
    g: spec_fn(int, int) -> bool,
    a: int,
    b: int,
    color: u32,
)
    requires
        painted(p, o, stride, width, height, f, color),
        o.len() == stride * height,
        0 <= a < width,
        width <= stride,
        0 <= b < height,
        forall|x: int, y: int| #[trigger] g(x, y) == (f(x, y) || (x == a && y == b)),
    ensures
        painted(p.update(idx(a, b, stride), color), o, stride, width, height, g, color),
{
    let q = p.update(idx(a, b, stride), color);
    lemma_idx_bounds(a, b, stride, height);
    assert forall|x: int, y: int| 0 <= x < stride && 0 <= y < height implies #[trigger] q[idx(x, y, stride)]
        == (if g(x, y) && x < width { color } else { o[idx(x, y, stride)] }) by {
        lemma_idx_bounds(x, y, stride, height);
        if x == a && y == b {
        } else {
            if idx(x, y, stride) == idx(a, b, stride) {
                lemma_idx_injective(x, y, a, b, stride);
            }
        }
    }
}

/// Painting outside the visible part changes nothing, so the painted region may count it.
proof fn lemma_paint_skip(
    p: Seq<u32>,
    o: Seq<u32>,
    stride: int,
    width: int,
    height: int,
    f: spec_fn(int, int) -> bool,
    g: spec_fn(int, int) -> bool,
    a: int,
    b: int,
    color: u32,
)
    requires
        painted(p, o, stride, width, height, f, color),
        !(a < width && b < height),
        forall|x: int, y: int| #[trigger] g(x, y) == (f(x, y) || (x == a && y == b)),
    ensures
        painted(p, o, stride, width, height, g, color),
{
    assert forall|x: int, y: int| 0 <= x < stride && 0 <= y < height implies #[trigger] p[idx(x, y, stride)]
        == (if g(x, y) && x < width { color } else { o[idx(x, y, stride)] }) by {
        assert(f(x, y) == g(x, y) || !(x < width));
    }
}

/// Nothing painted yet.
proof fn lemma_paint_none(o: Seq<u32>, stride: int, width: int, height: int, f: spec_fn(int, int) -> bool, color: u32)
    requires
        forall|x: int, y: int| !#[trigger] f(x, y),
    ensures
        painted(o, o, stride, width, height, f, color),
{
}

/// Regions that hold at the same pixels paint the same.
proof fn lemma_paint_same(
    p: Seq<u32>,
    o: Seq<u32>,
    stride: int,
    width: int,
    height: int,
    f: spec_fn(int, int) -> bool,
    g: spec_fn(int, int) -> bool,
    color: u32,
)
    requires
        painted(p, o, stride, width, height, f, color),
        forall|x: int, y: int| 0 <= x < width && 0 <= y < height ==> #[trigger] g(x, y) == f(x, y),
    ensures
        painted(p, o, stride, width, height, g, color),
{
    assert forall|x: int, y: int| 0 <= x < stride && 0 <= y < height implies #[trigger] p[idx(x, y, stride)]
        == (if g(x, y) && x < width { color } else { o[idx(x, y, stride)] }) by {
        if x < width {
            assert(g(x, y) == f(x, y));
        }
    }
}

/// `new` is `old` with every visible pixel `(x, y)` for which `f` holds set to `val(x, y)`,
/// and every other pixel as it was.
pub open spec fn copied(
    new: Seq<u32>,
    old: Seq<u32>,
    stride: int,
    width: int,
    height: int,
    f: spec_fn(int, int) -> bool,
    val: spec_fn(int, int) -> u32,
) -> bool {
    &&& new.len() == old.len()
    &&& forall|x: int, y: int|
        0 <= x < stride && 0 <= y < height ==> #[trigger] new[idx(x, y, stride)] == (if f(x, y)
            && x < width { val(x, y) } else { old[idx(x, y, stride)] })
}

/// Setting one more visible pixel `(a, b)` to its value extends the copied region by it.
proof fn lemma_copy_one(
    p: Seq<u32>,
    o: Seq<u32>,
    stride: int,
    width: int,
    height: int,
    f: spec_fn(int, int) -> bool,
    g: spec_fn(int, int) -> bool,
    val: spec_fn(int, int) -> u32,
    a: int,
    b: int,
)
    requires
        copied(p, o, stride, width, height, f, val),
        o.len() == stride * height,
        0 <= a < width,
        width <= stride,
        0 <= b < height,
        forall|x: int, y: int| #[trigger] g(x, y) == (f(x, y) || (x == a && y == b)),
    ensures
        copied(p.update(idx(a, b, stride), val(a, b)), o, stride, width, height, g, val),
{
    let q = p.update(idx(a, b, stride), val(a, b));
    lemma_idx_bounds(a, b, stride, height);
    assert forall|x: int, y: int| 0 <= x < stride && 0 <= y < height implies #[trigger] q[idx(x, y, stride)]
        == (if g(x, y) && x < width { val(x, y) } else { o[idx(x, y, stride)] }) by {
        lemma_idx_bounds(x, y, stride, height);
        if x == a && y == b {
        } else {
            if idx(x, y, stride) == idx(a, b, stride) {
                lemma_idx_injective(x, y, a, b, stride);
            }
        }
    }
}

/// Regions that hold at the same visible pixels copy the same.
proof fn lemma_copy_same(
    p: Seq<u32>,
    o: Seq<u32>,
    stride: int,
    width: int,
    height: int,
    f: spec_fn(int, int) -> bool,
    g: spec_fn(int, int) -> bool,
    val: spec_fn(int, int) -> u32,
)
    requires
        copied(p, o, stride, width, height, f, val),
        forall|x: int, y: int| 0 <= x < width && 0 <= y < height ==> #[trigger] g(x, y) == f(x, y),
    ensures
        copied(p, o, stride, width, height, g, val),
{
    assert forall|x: int, y: int| 0 <= x < stride && 0 <= y < height implies #[trigger] p[idx(x, y, stride)]
        == (if g(x, y) && x < width { val(x, y) } else { o[idx(x, y, stride)] }) by {
        if x < width {
            assert(g(x, y) == f(x, y));
        }
    }
}

/// The rows of a `w` pixel wide sprite at `(x, y)` that land on a `width` by `height`
/// surface lie within `len` entries of its data.
pub open spec fn sprite_fits(x: int, y: int, w: int, h: int, width: int, height: int, len: int) -> bool {
    let end_x = if x + w < width { x + w } else { width };
    let end_y = if y + h < height { y + h } else { height };
    x < end_x && y < end_y ==> (end_y - y - 1) * w + (end_x - x) <= len
}

/// `old` with every visible pixel of `f` set to `color`, position by position.
pub open spec fn paint(old: Seq<u32>, stride: int, width: int, f: spec_fn(int, int) -> bool, color: u32) -> Seq<u32> {
    Seq::new(old.len(), |i: int| if f(i % stride, i / stride) && i % stride < width { color } else { old[i] })
}

/// A buffer painted pixel by pixel is the painted buffer.
proof fn lemma_painted_is_paint(
    new: Seq<u32>,
    old: Seq<u32>,
    stride: int,
    width: int,
    height: int,
    f: spec_fn(int, int) -> bool,
    color: u32,
)
    requires
        painted(new, old, stride, width, height, f, color),
        old.len() == stride * height,
        stride >= 0,
        height >= 0,
    ensures
        new == paint(old, stride, width, f, color),
{
    let q = paint(old, stride, width, f, color);
    assert forall|i: int| 0 <= i < new.len() implies new[i] == q[i] by {
        if stride > 0 {
            let x = i % stride;
            let y = i / stride;
            vstd::arithmetic::div_mod::lemma_fundamental_div_mod(i, stride);
            vstd::arithmetic::div_mod::lemma_mod_bound(i, stride);
            vstd::arithmetic::div_mod::lemma_div_pos_is_pos(i, stride);
            assert(y < height) by {
                vstd::arithmetic::div_mod::lemma_multiply_divide_lt(i, stride, height);
            }
            assert(i == idx(x, y, stride)) by (nonlinear_arith)
                requires i == stride * (i / stride) + i % stride, x == i % stride, y == i / stride;
            assert(new[idx(x, y, stride)] == (if f(x, y) && x < width { color } else { old[idx(x, y, stride)] }));
        } else {
            assert(stride * height == 0);
        }
    }
    assert(new =~= q);
}

/// Whether pixel `col` of row `row` of an 8 by 8 glyph is set.
pub open spec fn glyph_bit(glyph: [u8; 8], row: int, col: int) -> bool {
    (glyph@[row] >> (col as u8)) & 1u8 == 1u8
}

/// Whether screen pixel `(px, py)` is covered by `glyph` drawn with its top left at
/// `(cx, cy)`, each glyph pixel a `SCALE` by `SCALE` square.
pub open spec fn glyph_cover(glyph: [u8; 8], cx: int, cy: int, px: int, py: int) -> bool {
    &&& cx <= px < cx + GLYPH
    &&& cy <= py < cy + GLYPH
    &&& glyph_bit(glyph, (py - cy) / (SCALE as int), (px - cx) / (SCALE as int))
}

/// The cursor row after a line break: one line down, or back to the top when the next
/// line would not fit.
pub open spec fn after_new_line(cy: int, height: int) -> int {
    if cy + STEP + GLYPH >= height { 0 } else { cy + STEP }
}

/// The cursor after one glyph: one step right, or to the start of the next line when the
/// next glyph would not fit.
pub open spec fn after_advance(cx: int, cy: int, width: int, height: int) -> (int, int) {
    if cx + STEP + GLYPH >= width { (0, after_new_line(cy, height)) } else { (cx + STEP, cy) }
}

/// Whether character `c` has a glyph in the font: the printable ASCII characters.
pub open spec fn printable(c: char) -> bool {
    32 <= (c as u32) <= 126
}

/// The pixels and cursor after writing character `c` from state `st` (pixels, cursor
/// column, cursor row): a line feed breaks the line, a carriage return goes back to the
/// start of the line, a printable character is drawn from `font` and the cursor moves on,
/// and any other character only moves the cursor on.
pub open spec fn char_state(
    st: (Seq<u32>, int, int),
    c: char,
    font: Seq<[u8; 8]>,
    stride: int,
    width: int,
    height: int,
    color: u32,
) -> (Seq<u32>, int, int) {
    if c == '\n' {
        (st.0, 0, after_new_line(st.2, height))
    } else if c == '\r' {
        (st.0, 0, st.2)
    } else {
        let a = after_advance(st.1, st.2, width, height);
        if printable(c) {
            let glyph = font[(c as u32) - 32];
            (paint(st.0, stride, width, |px: int, py: int| glyph_cover(glyph, st.1, st.2, px, py), color), a.0, a.1)
        } else {
            (st.0, a.0, a.1)
        }
    }
}

/// The pixels and cursor after writing the characters of `s` in turn from state `st`.
pub open spec fn text_state(
    st: (Seq<u32>, int, int),
    s: Seq<char>,
    font: Seq<[u8; 8]>,
    stride: int,
    width: int,
    height: int,
    color: u32,
) -> (Seq<u32>, int, int)
    decreases s.len(),
{
    if s.len() == 0 {
        st
    } else {
        char_state(text_state(st, s.drop_last(), font, stride, width, height, color), s.last(), font, stride, width, height, color)
    }
}

/// Whether `(px, py)` lies in the box spanned by the two ends `(x0, y0)` and `(x1, y1)` of a
/// line.
pub open spec fn in_line_box(x0: int, y0: int, x1: int, y1: int, px: int, py: int) -> bool {
    &&& (if x0 <= x1 { x0 <= px <= x1 } else { x1 <= px <= x0 })
    &&& (if y0 <= y1 { y0 <= py <= y1 } else { y1 <= py <= y0 })
}

/// The `k`-th point of the line from `(x0, y0)` to `(x1, y1)`, with the error term after it:
/// from the first end, each step doubles the error and, when that is at least `-|y1 - y0|`,
/// moves one column towards the other end, and when it is at most `|x1 - x0|`, one row
/// (Bresenham's method).
pub open spec fn line_point(x0: int, y0: int, x1: int, y1: int, k: nat) -> (int, int, int)
    decreases k,
{
    let dx = if x1 >= x0 { x1 - x0 } else { x0 - x1 };
    let dy = if y1 >= y0 { y0 - y1 } else { y1 - y0 };
    if k == 0 {
        (x0, y0, dx + dy)
    } else {
        let (x, y, err) = line_point(x0, y0, x1, y1, (k - 1) as nat);
        let e2 = 2 * err;
        let sx = if x0 < x1 { 1int } else { -1int };
        let sy = if y0 < y1 { 1int } else { -1int };
        let (x2, err2) = if e2 >= dy { (x + sx, err + dy) } else { (x, err) };
        if e2 <= dx { (x2, y + sy, err2 + dx) } else { (x2, y, err2) }
    }
}

/// Whether `(px, py)` is a point the line from `(x0, y0)` to `(x1, y1)` plots: one of its
/// points up to the first that is the far end.
pub open spec fn on_line(x0: int, y0: int, x1: int, y1: int, px: int, py: int) -> bool {
    exists|k: nat|
        (#[trigger] line_point(x0, y0, x1, y1, k)).0 == px && line_point(x0, y0, x1, y1, k).1 == py
            && forall|m: nat| m < k ==> !((#[trigger] line_point(x0, y0, x1, y1, m)).0 == x1
                && line_point(x0, y0, x1, y1, m).1 == y1)
}

/// The largest coordinate a line may have.
pub const LINE_LIMIT: usize = 0x0fff_ffff;

/// A text and drawing surface of `width` by `height` visible pixels, kept row by row in
/// `pixels`, rows `stride` pixels apart. Text goes at the cursor in the current colour, each
/// glyph of the font drawn `SCALE` times its size.
pub struct Renderer {
    pub pixels: Vec<u32>,
    pub width: usize,
    pub height: usize,
    pub stride: usize,
    pub cursor_x: usize,
    pub cursor_y: usize,
    pub color: u32,
}

impl Renderer {
    /// The pixel buffer.
    pub open spec fn pixels_spec(&self) -> Seq<u32> {
        self.pixels@
    }

    /// The cursor's column.
    pub open spec fn cursor_x_spec(&self) -> int {
        self.cursor_x as int
    }

    /// The cursor's row.
    pub open spec fn cursor_y_spec(&self) -> int {
        self.cursor_y as int
    }

    /// The colour of text.
    pub open spec fn color_spec(&self) -> u32 {
        self.color
    }

    /// The colour of visible pixel `(x, y)`.
    pub open spec fn at(&self, x: int, y: int) -> u32 {
        self.pixels_spec()[idx(x, y, self.stride as int)]
    }

    /// The buffer holds `height` rows of `stride` pixels, each row at least as wide as
    /// the visible width, and the cursor is far enough from the end of the numbers that
    /// drawing a glyph and moving past it stays within them.
    pub open spec fn wf(&self) -> bool {
        &&& self.pixels_spec().len() == self.stride * self.height
        &&& self.width <= self.stride
        &&& self.cursor_x + STEP + GLYPH <= usize::MAX
        &&& self.cursor_y + STEP + GLYPH <= usize::MAX
        &&& self.width + STEP + GLYPH <= usize::MAX
        &&& self.height + STEP + GLYPH <= usize::MAX
    }

    /// Whether `other` has the same size and cursor and colour as `self`.
    pub open spec fn same_frame(&self, other: &Renderer) -> bool {
        &&& other.width == self.width
        &&& other.height == self.height
        &&& other.stride == self.stride
        &&& other.pixels_spec().len() == self.pixels_spec().len()
    }

    /// Both are well formed, of one size, with the same cursor and colour.
    pub open spec fn keeps(&self, other: &Renderer) -> bool {
        &&& self.wf()
        &&& other.wf()
        &&& self.same_frame(other)
        &&& other.cursor_x == self.cursor_x
        &&& other.cursor_y == self.cursor_y
        &&& other.color == self.color
    }

    /// `self` is `before` with the visible pixels of `f` painted `color`.
    pub open spec fn painted_from(&self, before: &Renderer, f: spec_fn(int, int) -> bool, color: u32) -> bool {
        painted(
            self.pixels@,
            before.pixels@,
            before.stride as int,
            before.width as int,
            before.height as int,
            f,
            color,
        )
    }

    /// A black surface of `width` by `height` with rows `stride` apart, the cursor at the
    /// top left and white text.
    pub fn new(width: usize, height: usize, stride: usize) -> (r: Renderer)
        requires
            width <= stride,
            stride * height <= usize::MAX,
            width + STEP + GLYPH <= usize::MAX,
            height + STEP + GLYPH <= usize::MAX,
        ensures
            r.wf(),
            r.width == width,
            r.height == height,
            r.stride == stride,
            r.cursor_x_spec() == 0,
            r.cursor_y_spec() == 0,
            r.color_spec() == 0x00FF_FFFFu32,
            forall|i: int| 0 <= i < r.pixels_spec().len() ==> r.pixels_spec()[i] == 0,
    {
        let total: usize = stride * height;
        let mut pixels: Vec<u32> = Vec::new();
        while pixels.len() < total
            invariant
                pixels.len() <= total,
                forall|i: int| 0 <= i < pixels.len() ==> pixels@[i] == 0,
            decreases total - pixels.len(),
        {
            pixels.push(0);
        }
        Renderer { pixels, width, height, stride, cursor_x: 0, cursor_y: 0, color: 0x00FF_FFFF }
    }

    /// The pixel buffer, `height` rows of `stride` pixels.
    pub fn pixels(&self) -> (r: &Vec<u32>)
        ensures
            r@ == self.pixels_spec(),
    {
        &self.pixels
    }

    /// The cursor, column then row.
    pub fn cursor(&self) -> (r: (usize, usize))
        ensures
            r.0 == self.cursor_x_spec(),
            r.1 == self.cursor_y_spec(),
    {
        (self.cursor_x, self.cursor_y)
    }

    /// Text from now on is drawn in `color`.
    pub fn set_color(&mut self, color: u32)
        ensures
            final(self).color_spec() == color,
            final(self).pixels_spec() == old(self).pixels_spec(),
            final(self).cursor_x_spec() == old(self).cursor_x_spec(),
            final(self).cursor_y_spec() == old(self).cursor_y_spec(),
            old(self).same_frame(final(self)),
    {
        self.color = color;
    }

    /// Colours pixel `(x, y)` when it is visible; does nothing otherwise.
    pub fn put_pixel(&mut self, x: usize, y: usize, color: u32)
        requires
            old(self).wf(),
        ensures
            final(self).wf(),
            old(self).same_frame(final(self)),
            final(self).cursor_x_spec() == old(self).cursor_x_spec(),
            final(self).cursor_y_spec() == old(self).cursor_y_spec(),
            final(self).color_spec() == old(self).color_spec(),
            x < old(self).width && y < old(self).height ==> final(self).pixels_spec()
                == old(self).pixels_spec().update(idx(x as int, y as int, old(self).stride as int), color),
            !(x < old(self).width && y < old(self).height) ==> final(self).pixels_spec()
                == old(self).pixels_spec(),
    {
        if x >= self.width || y >= self.height {
            return;
        }
        proof {
            lemma_idx_bounds(x as int, y as int, self.stride as int, self.height as int);
            assert(idx(x as int, y as int, self.stride as int) < self.pixels@.len());
        }
        let _len: usize = self.pixels.len();
        let i: usize = y * self.stride + x;
        self.pixels.set(i, color);
    }

    /// The colour of pixel `(x, y)`, or 0 where it is not visible.
    pub fn get_pixel(&self, x: usize, y: usize) -> (r: u32)
        requires
            self.wf(),
        ensures
            r == (if x < self.width && y < self.height { self.at(x as int, y as int) } else { 0 }),
    {
        if x >= self.width || y >= self.height {
            return 0;
        }
        proof {
            lemma_idx_bounds(x as int, y as int, self.stride as int, self.height as int);
        }
        let _len: usize = self.pixels.len();
        self.pixels[y * self.stride + x]
    }

    /// Paints the whole buffer `color` and puts the cursor at the top left.
    pub fn clear(&mut self, color: u32)
        requires
            old(self).wf(),
        ensures
            final(self).wf(),
            old(self).same_frame(final(self)),
            final(self).cursor_x_spec() == 0,
            final(self).cursor_y_spec() == 0,
            final(self).color_spec() == old(self).color_spec(),
            forall|i: int| 0 <= i < final(self).pixels_spec().len() ==> final(self).pixels_spec()[i] == color,
    {
        let total: usize = self.pixels.len();
        let mut i: usize = 0;
        while i < total
            invariant
                total == self.pixels.len(),
                self.pixels@.len() == old(self).pixels@.len(),
                self.width == old(self).width,
                self.height == old(self).height,
                self.stride == old(self).stride,
                self.color == old(self).color,
                i <= total,
                forall|k: int| 0 <= k < i ==> self.pixels@[k] == color,
            decreases total - i,
        {
            self.pixels.set(i, color);
            i = i + 1;
        }
        self.cursor_x = 0;
        self.cursor_y = 0;
    }

    /// Paints the visible pixels of the `length` pixels from `(x, y)` rightwards.
    pub fn draw_hline(&mut self, x: usize, y: usize, length: usize, color: u32)
        requires
            old(self).wf(),
            x + length <= usize::MAX + 1,
        ensures
            old(self).keeps(final(self)),
            final(self).painted_from(old(self), |px: int, py: int| py == y && x <= px < x + length, color),
    {
        proof {
            lemma_paint_none(self.pixels@, self.stride as int, self.width as int, self.height as int, |px: int, py: int| py == y && x <= px < x + 0, color);
        }
        let mut dx: usize = 0;
        while dx < length
            invariant
                dx <= length,
                x + length <= usize::MAX + 1,
                old(self).keeps(self),
                self.painted_from(old(self), |px: int, py: int| py == y && x <= px < x + dx, color),
            decreases length - dx,
        {
            let ghost before = self.pixels@;
            self.put_pixel(x + dx, y, color);
            proof {
                let f = |px: int, py: int| py == y && x <= px < x + dx;
                let g = |px: int, py: int| py == y && x <= px < x + dx + 1;
                if x + dx < self.width && y < self.height {
                    lemma_paint_one(before, old(self).pixels@, self.stride as int, self.width as int, self.height as int, f, g, x + dx, y as int, color);
                } else {
                    lemma_paint_skip(before, old(self).pixels@, self.stride as int, self.width as int, self.height as int, f, g, x + dx, y as int, color);
                }
            }
            dx = dx + 1;
        }
    }

    /// Paints the visible pixels of the `length` pixels from `(x, y)` downwards.
    pub fn draw_vline(&mut self, x: usize, y: usize, length: usize, color: u32)
        requires
            old(self).wf(),
            y + length <= usize::MAX + 1,
        ensures
            old(self).keeps(final(self)),
            final(self).painted_from(old(self), |px: int, py: int| px == x && y <= py < y + length, color),
    {
        proof {
            lemma_paint_none(self.pixels@, self.stride as int, self.width as int, self.height as int, |px: int, py: int| px == x && y <= py < y + 0, color);
        }
        let mut dy: usize = 0;
        while dy < length
            invariant
                dy <= length,
                y + length <= usize::MAX + 1,
                old(self).keeps(self),
                self.painted_from(old(self), |px: int, py: int| px == x && y <= py < y + dy, color),
            decreases length - dy,
        {
            let ghost before = self.pixels@;
            self.put_pixel(x, y + dy, color);
            proof {
                let f = |px: int, py: int| px == x && y <= py < y + dy;
                let g = |px: int, py: int| px == x && y <= py < y + dy + 1;
                if x < self.width && y + dy < self.height {
                    lemma_paint_one(before, old(self).pixels@, self.stride as int, self.width as int, self.height as int, f, g, x as int, y + dy, color);
                } else {
                    lemma_paint_skip(before, old(self).pixels@, self.stride as int, self.width as int, self.height as int, f, g, x as int, y + dy, color);
                }
            }
            dy = dy + 1;
        }
    }

    /// Paints the visible pixels of the `w` by `h` rectangle whose top left is `(x, y)`.
    pub fn fill_rect(&mut self, x: usize, y: usize, w: usize, h: usize, color: u32)
        requires
            old(self).wf(),
            x + w <= usize::MAX,
            y + h <= usize::MAX,
        ensures
            old(self).keeps(final(self)),
            final(self).painted_from(old(self), |px: int, py: int| x <= px < x + w && y <= py < y + h, color),
    {
        let start_x: usize = if x < self.width { x } else { self.width };
        let start_y: usize = if y < self.height { y } else { self.height };
        let end_x: usize = if x + w < self.width { x + w } else { self.width };
        let end_y: usize = if y + h < self.height { y + h } else { self.height };
        let ghost rect = |px: int, py: int| x <= px < x + w && y <= py < y + h;
        let ghost clipped = |px: int, py: int| start_x <= px < end_x && start_y <= py < end_y;
        proof {
            lemma_paint_none(self.pixels@, self.stride as int, self.width as int, self.height as int, |px: int, py: int| start_x <= px < end_x && start_y <= py < start_y, color);
        }
        let mut row: usize = start_y;
        while row < end_y
            invariant
                start_y <= row <= end_y,
                end_y <= old(self).height,
                start_x <= end_x <= old(self).width,
                old(self).keeps(self),
                self.painted_from(old(self), |px: int, py: int| start_x <= px < end_x && start_y <= py < row, color),
            decreases end_y - row,
        {
            let mut col: usize = start_x;
            while col < end_x
                invariant
                    start_y <= row < end_y,
                    start_x <= col <= end_x,
                    end_y <= old(self).height,
                    end_x <= old(self).width,
                    old(self).keeps(self),
                    self.painted_from(old(self), |px: int, py: int| (start_x <= px < end_x && start_y <= py < row) || (py == row && start_x <= px < col), color),
                decreases end_x - col,
            {
                let ghost before = self.pixels@;
                self.put_pixel(col, row, color);
                proof {
                    let f = |px: int, py: int| (start_x <= px < end_x && start_y <= py < row) || (py == row && start_x <= px < col);
                    let g = |px: int, py: int| (start_x <= px < end_x && start_y <= py < row) || (py == row && start_x <= px < col + 1);
                    lemma_paint_one(before, old(self).pixels@, self.stride as int, self.width as int, self.height as int, f, g, col as int, row as int, color);
                }
                col = col + 1;
            }
            proof {
                lemma_paint_same(self.pixels@, old(self).pixels@, self.stride as int, self.width as int, self.height as int,
                    |px: int, py: int| (start_x <= px < end_x && start_y <= py < row) || (py == row && start_x <= px < end_x),
                    |px: int, py: int| start_x <= px < end_x && start_y <= py < row + 1, color);
            }
            row = row + 1;
        }
        proof {
            lemma_paint_same(self.pixels@, old(self).pixels@, self.stride as int, self.width as int, self.height as int,
                |px: int, py: int| start_x <= px < end_x && start_y <= py < end_y, rect, color);
        }
    }

    /// Paints the visible pixels of the border of the `w` by `h` rectangle whose top left is
    /// `(x, y)`: its top and bottom rows and its left and right columns.
    pub fn draw_rect(&mut self, x: usize, y: usize, w: usize, h: usize, color: u32)
        requires
            old(self).wf(),
            x + w <= usize::MAX,
            y + h <= usize::MAX,
            w > 0 ==> h > 0,
            h > 0 ==> w > 0,
        ensures
            old(self).keeps(final(self)),
            final(self).painted_from(old(self), |px: int, py: int|
                (x <= px < x + w && (py == y || py == y + h - 1)) || (y <= py < y + h && (px == x || px == x + w - 1)), color),
    {
        proof {
            lemma_paint_none(self.pixels@, self.stride as int, self.width as int, self.height as int,
                |px: int, py: int| x <= px < x + 0 && (py == y || py == y + h - 1), color);
        }
        let mut dx: usize = 0;
        while dx < w
            invariant
                dx <= w,
                w > 0 ==> h > 0,
                x + w <= usize::MAX,
                y + h <= usize::MAX,
                old(self).keeps(self),
                self.painted_from(old(self), |px: int, py: int| x <= px < x + dx && (py == y || py == y + h - 1), color),
            decreases w - dx,
        {
            let ghost p0 = self.pixels@;
            self.put_pixel(x + dx, y, color);
            let ghost p1 = self.pixels@;
            self.put_pixel(x + dx, y + h - 1, color);
            proof {
                let f = |px: int, py: int| x <= px < x + dx && (py == y || py == y + h - 1);
                let g = |px: int, py: int| (x <= px < x + dx && (py == y || py == y + h - 1)) || (px == x + dx && py == y);
                let k = |px: int, py: int| x <= px < x + dx + 1 && (py == y || py == y + h - 1);
                if x + dx < self.width && y < self.height {
                    lemma_paint_one(p0, old(self).pixels@, self.stride as int, self.width as int, self.height as int, f, g, x + dx, y as int, color);
                } else {
                    lemma_paint_skip(p0, old(self).pixels@, self.stride as int, self.width as int, self.height as int, f, g, x + dx, y as int, color);
                }
                if x + dx < self.width && y + h - 1 < self.height {
                    lemma_paint_one(p1, old(self).pixels@, self.stride as int, self.width as int, self.height as int, g, k, x + dx, y + h - 1, color);
                } else {
                    lemma_paint_skip(p1, old(self).pixels@, self.stride as int, self.width as int, self.height as int, g, k, x + dx, y + h - 1, color);
                }
            }
            dx = dx + 1;
        }
        let mut dy: usize = 0;
        while dy < h
            invariant
                dy <= h,
                h > 0 ==> w > 0,
                x + w <= usize::MAX,
                y + h <= usize::MAX,
                old(self).keeps(self),
                self.painted_from(old(self), |px: int, py: int|
                    (x <= px < x + w && (py == y || py == y + h - 1)) || (y <= py < y + dy && (px == x || px == x + w - 1)), color),
            decreases h - dy,
        {
            let ghost p0 = self.pixels@;
            self.put_pixel(x, y + dy, color);
            let ghost p1 = self.pixels@;
            self.put_pixel(x + w - 1, y + dy, color);
            proof {
                let f = |px: int, py: int| (x <= px < x + w && (py == y || py == y + h - 1)) || (y <= py < y + dy && (px == x || px == x + w - 1));
                let g = |px: int, py: int| ((x <= px < x + w && (py == y || py == y + h - 1)) || (y <= py < y + dy && (px == x || px == x + w - 1))) || (px == x && py == y + dy);
                let k = |px: int, py: int| (x <= px < x + w && (py == y || py == y + h - 1)) || (y <= py < y + dy + 1 && (px == x || px == x + w - 1));
                if x < self.width && y + dy < self.height {
                    lemma_paint_one(p0, old(self).pixels@, self.stride as int, self.width as int, self.height as int, f, g, x as int, y + dy, color);
                } else {
                    lemma_paint_skip(p0, old(self).pixels@, self.stride as int, self.width as int, self.height as int, f, g, x as int, y + dy, color);
                }
                if x + w - 1 < self.width && y + dy < self.height {
                    lemma_paint_one(p1, old(self).pixels@, self.stride as int, self.width as int, self.height as int, g, k, x + w - 1, y + dy, color);
                } else {
                    lemma_paint_skip(p1, old(self).pixels@, self.stride as int, self.width as int, self.height as int, g, k, x + w - 1, y + dy, color);
                }
            }
            dy = dy + 1;
        }
    }

    /// Copies a `w` by `h` sprite, stored row by row in `data`, to the surface with its top
    /// left at `(x, y)`; the part that falls outside the visible surface is left out.
    pub fn draw_sprite(&mut self, x: usize, y: usize, w: usize, h: usize, data: &[u32])
        requires
            old(self).wf(),
            x + w <= usize::MAX,
            y + h <= usize::MAX,
            sprite_fits(x as int, y as int, w as int, h as int, old(self).width as int, old(self).height as int, data@.len() as int),
        ensures
            old(self).keeps(final(self)),
            copied(final(self).pixels@, old(self).pixels@, old(self).stride as int, old(self).width as int, old(self).height as int,
                |px: int, py: int| x <= px < x + w && y <= py < y + h,
                |px: int, py: int| data@[(py - y) * w + (px - x)]),
    {
        let start_x: usize = if x < self.width { x } else { self.width };
        let start_y: usize = if y < self.height { y } else { self.height };
        let end_x: usize = if x + w < self.width { x + w } else { self.width };
        let end_y: usize = if y + h < self.height { y + h } else { self.height };
        let draw_w: usize = end_x - start_x;
        let ghost val = |px: int, py: int| data@[(py - y) * w + (px - x)];
        if draw_w == 0 || start_y == end_y {
            proof {
                lemma_copy_same(self.pixels@, old(self).pixels@, self.stride as int, self.width as int, self.height as int,
                    |px: int, py: int| false, |px: int, py: int| x <= px < x + w && y <= py < y + h, val);
            }
            return;
        }
        let mut row: usize = start_y;
        while row < end_y
            invariant
                start_y == y,
                start_x == x,
                start_y <= row <= end_y,
                end_y <= old(self).height,
                start_x < end_x <= old(self).width,
                end_x <= x + w,
                end_y <= y + h,
                (end_y - y - 1) * w + (end_x - x) <= data@.len(),
                old(self).keeps(self),
                val == (|px: int, py: int| data@[(py - y) * w + (px - x)]),
                copied(self.pixels@, old(self).pixels@, self.stride as int, self.width as int, self.height as int,
                    |px: int, py: int| start_x <= px < end_x && start_y <= py < row, val),
            decreases end_y - row,
        {
            let mut col: usize = start_x;
            while col < end_x
                invariant
                    start_y == y,
                    start_x == x,
                    start_y <= row < end_y,
                    start_x <= col <= end_x,
                    end_y <= old(self).height,
                    end_x <= old(self).width,
                    (end_y - y - 1) * w + (end_x - x) <= data@.len(),
                    old(self).keeps(self),
                    val == (|px: int, py: int| data@[(py - y) * w + (px - x)]),
                    copied(self.pixels@, old(self).pixels@, self.stride as int, self.width as int, self.height as int,
                        |px: int, py: int| (start_x <= px < end_x && start_y <= py < row) || (py == row && start_x <= px < col), val),
                decreases end_x - col,
            {
                assert((row - y) * w <= (end_y - y - 1) * w) by (nonlinear_arith)
                    requires row - y <= end_y - y - 1, w >= 0;
                let _dl: usize = data.len();
                let src: usize = (row - y) * w + (col - x);
                let v: u32 = data[src];
                let ghost before = self.pixels@;
                proof {
                    lemma_idx_bounds(col as int, row as int, self.stride as int, self.height as int);
                }
                let _len: usize = self.pixels.len();
                self.pixels.set(row * self.stride + col, v);
                proof {
                    let f = |px: int, py: int| (start_x <= px < end_x && start_y <= py < row) || (py == row && start_x <= px < col);
                    let g = |px: int, py: int| (start_x <= px < end_x && start_y <= py < row) || (py == row && start_x <= px < col + 1);
                    lemma_copy_one(before, old(self).pixels@, self.stride as int, self.width as int, self.height as int, f, g, val, col as int, row as int);
                }
                col = col + 1;
            }
            proof {
                lemma_copy_same(self.pixels@, old(self).pixels@, self.stride as int, self.width as int, self.height as int,
                    |px: int, py: int| (start_x <= px < end_x && start_y <= py < row) || (py == row && start_x <= px < end_x),
                    |px: int, py: int| start_x <= px < end_x && start_y <= py < row + 1, val);
            }
            row = row + 1;
        }
        proof {
            lemma_copy_same(self.pixels@, old(self).pixels@, self.stride as int, self.width as int, self.height as int,
                |px: int, py: int| start_x <= px < end_x && start_y <= py < end_y,
                |px: int, py: int| x <= px < x + w && y <= py < y + h, val);
        }
    }

    /// Copies the cells of a `w` by `h` sprite whose mask byte is not zero to `(x, y)`, as
    /// far as they land on the surface; `mask` and `data` hold the sprite row by row.
    pub fn draw_masked(&mut self, x: usize, y: usize, w: usize, h: usize, mask: &[u8], data: &[u32])
        requires
            old(self).wf(),
            x + w <= usize::MAX,
            y + h <= usize::MAX,
            mask@.len() == w * h,
            data@.len() == w * h,
        ensures
            old(self).keeps(final(self)),
            copied(final(self).pixels@, old(self).pixels@, old(self).stride as int, old(self).width as int, old(self).height as int,
                |px: int, py: int| x <= px < x + w && y <= py < y + h && mask@[(py - y) * w + (px - x)] != 0,
                |px: int, py: int| data@[(py - y) * w + (px - x)]),
    {
        let end_x: usize = if x + w < self.width { x + w } else { self.width };
        let end_y: usize = if y + h < self.height { y + h } else { self.height };
        let ghost val = |px: int, py: int| data@[(py - y) * w + (px - x)];
        let ghost on = |px: int, py: int| mask@[(py - y) * w + (px - x)] != 0;
        let ghost whole = |px: int, py: int| x <= px < x + w && y <= py < y + h && mask@[(py - y) * w + (px - x)] != 0;
        if x >= end_x || y >= end_y {
            proof {
                lemma_copy_same(self.pixels@, old(self).pixels@, self.stride as int, self.width as int, self.height as int,
                    |px: int, py: int| false, whole, val);
            }
            return;
        }
        let mut row: usize = y;
        while row < end_y
            invariant
                y <= row <= end_y,
                end_y <= old(self).height,
                x < end_x <= old(self).width,
                end_x <= x + w,
                end_y <= y + h,
                mask@.len() == w * h,
                data@.len() == w * h,
                old(self).keeps(self),
                val == (|px: int, py: int| data@[(py - y) * w + (px - x)]),
                on == (|px: int, py: int| mask@[(py - y) * w + (px - x)] != 0),
                copied(self.pixels@, old(self).pixels@, self.stride as int, self.width as int, self.height as int,
                    |px: int, py: int| x <= px < end_x && y <= py < row && on(px, py), val),
            decreases end_y - row,
        {
            let mut col: usize = x;
            while col < end_x
                invariant
                    y <= row < end_y,
                    x <= col <= end_x,
                    end_y <= old(self).height,
                    end_x <= old(self).width,
                    end_x <= x + w,
                    end_y <= y + h,
                    mask@.len() == w * h,
                    data@.len() == w * h,
                    old(self).keeps(self),
                    val == (|px: int, py: int| data@[(py - y) * w + (px - x)]),
                    on == (|px: int, py: int| mask@[(py - y) * w + (px - x)] != 0),
                    copied(self.pixels@, old(self).pixels@, self.stride as int, self.width as int, self.height as int,
                        |px: int, py: int| ((x <= px < end_x && y <= py < row) || (py == row && x <= px < col)) && on(px, py), val),
                decreases end_x - col,
            {
                assert((row - y) * w + (col - x) < w * h) by (nonlinear_arith)
                    requires row - y < h, col - x < w, row >= y, col >= x;
                let _dl: usize = data.len();
                let _ml: usize = mask.len();
                let src: usize = (row - y) * w + (col - x);
                let ghost before = self.pixels@;
                let ghost f = |px: int, py: int| ((x <= px < end_x && y <= py < row) || (py == row && x <= px < col)) && on(px, py);
                let ghost g = |px: int, py: int| ((x <= px < end_x && y <= py < row) || (py == row && x <= px < col + 1)) && on(px, py);
                if mask[src] != 0 {
                    let v: u32 = data[src];
                    proof {
                        lemma_idx_bounds(col as int, row as int, self.stride as int, self.height as int);
                    }
                    let _len: usize = self.pixels.len();
                    self.pixels.set(row * self.stride + col, v);
                    proof {
                        lemma_copy_one(before, old(self).pixels@, self.stride as int, self.width as int, self.height as int, f, g, val, col as int, row as int);
                    }
                } else {
                    proof {
                        lemma_copy_same(self.pixels@, old(self).pixels@, self.stride as int, self.width as int, self.height as int, f, g, val);
                    }
                }
                col = col + 1;
            }
            proof {
                lemma_copy_same(self.pixels@, old(self).pixels@, self.stride as int, self.width as int, self.height as int,
                    |px: int, py: int| ((x <= px < end_x && y <= py < row) || (py == row && x <= px < end_x)) && on(px, py),
                    |px: int, py: int| x <= px < end_x && y <= py < row + 1 && on(px, py), val);
            }
            row = row + 1;
        }
        proof {
            lemma_copy_same(self.pixels@, old(self).pixels@, self.stride as int, self.width as int, self.height as int,
                |px: int, py: int| x <= px < end_x && y <= py < end_y && on(px, py), whole, val);
        }
    }

    /// The pixels and cursor.
    pub open spec fn state(&self) -> (Seq<u32>, int, int) {
        (self.pixels@, self.cursor_x as int, self.cursor_y as int)
    }

    /// Moves the cursor to the start of the next line, or of the top line when the next
    /// would not fit.
    fn new_line(&mut self)
        requires
            old(self).wf(),
        ensures
            final(self).wf(),
            old(self).same_frame(final(self)),
            final(self).pixels@ == old(self).pixels@,
            final(self).color == old(self).color,
            final(self).cursor_x == 0,
            final(self).cursor_y == after_new_line(old(self).cursor_y as int, old(self).height as int),
    {
        self.cursor_x = 0;
        self.cursor_y = self.cursor_y + STEP;
        if self.cursor_y + GLYPH >= self.height {
            self.cursor_y = 0;
        }
    }

    /// Moves the cursor one glyph on, breaking the line when the next glyph would not fit.
    fn advance(&mut self)
        requires
            old(self).wf(),
        ensures
            final(self).wf(),
            old(self).same_frame(final(self)),
            final(self).pixels@ == old(self).pixels@,
            final(self).color == old(self).color,
            (final(self).cursor_x as int, final(self).cursor_y as int) == after_advance(
                old(self).cursor_x as int,
                old(self).cursor_y as int,
                old(self).width as int,
                old(self).height as int,
            ),
    {
        let next: usize = self.cursor_x + STEP;
        if next + GLYPH >= self.width {
            self.new_line();
        } else {
            self.cursor_x = next;
        }
    }

    /// Writes character `c` at the cursor with `font`, the glyphs of the printable ASCII
    /// characters from the space on: see `char_state`.
    pub fn put_char(&mut self, c: char, font: &[[u8; 8]])
        requires
            old(self).wf(),
            font@.len() == 95,
        ensures
            old(self).same_frame(final(self)),
            final(self).wf(),
            final(self).color == old(self).color,
            final(self).state() == char_state(old(self).state(), c, font@, old(self).stride as int,
                old(self).width as int, old(self).height as int, old(self).color),
    {
        if c == '\n' {
            self.new_line();
            return;
        }
        if c == '\r' {
            self.cursor_x = 0;
            return;
        }
        let code: u32 = c as u32;
        if code < 32 || code > 126 {
            self.advance();
            return;
        }
        let glyph: [u8; 8] = font[(code - 32) as usize];
        let cx: usize = self.cursor_x;
        let cy: usize = self.cursor_y;
        let color: u32 = self.color;
        let ghost cover = |px: int, py: int| glyph_cover(glyph, cx as int, cy as int, px, py);
        let ghost start = *self;
        proof {
            lemma_paint_none(self.pixels@, self.stride as int, self.width as int, self.height as int,
                |px: int, py: int| cover(px, py) && py < cy + 0, color);
        }
        let mut r: usize = 0;
        while r < GLYPH
            invariant
                r <= GLYPH,
                cx == start.cursor_x,
                cy == start.cursor_y,
                color == start.color,
                start.wf(),
                start.keeps(self),
                self.painted_from(&start, |px: int, py: int| cover(px, py) && py < cy + r, color),
                cover == (|px: int, py: int| glyph_cover(glyph, cx as int, cy as int, px, py)),
            decreases GLYPH - r,
        {
            let bits: u8 = glyph[r / SCALE];
            let mut k: usize = 0;
            while k < GLYPH
                invariant
                    r < GLYPH,
                    k <= GLYPH,
                    bits == glyph@[(r / SCALE) as int],
                    cx == start.cursor_x,
                    cy == start.cursor_y,
                    color == start.color,
                    start.wf(),
                    start.keeps(self),
                    self.painted_from(&start, |px: int, py: int| cover(px, py) && (py < cy + r || (py == cy + r && px < cx + k)), color),
                    cover == (|px: int, py: int| glyph_cover(glyph, cx as int, cy as int, px, py)),
                decreases GLYPH - k,
            {
                let on: bool = (bits >> ((k / SCALE) as u8)) & 1u8 == 1u8;
                let ghost f = |px: int, py: int| cover(px, py) && (py < cy + r || (py == cy + r && px < cx + k));
                let ghost g = |px: int, py: int| cover(px, py) && (py < cy + r || (py == cy + r && px < cx + k + 1));
                proof {
                    assert((cy + r - cy) / (SCALE as int) == (r / SCALE) as int);
                    assert((cx + k - cx) / (SCALE as int) == (k / SCALE) as int);
                    assert(on == cover(cx + k, cy + r));
                }
                if on {
                    let ghost before = self.pixels@;
                    self.put_pixel(cx + k, cy + r, color);
                    proof {
                        let h = |px: int, py: int| f(px, py) || (px == cx + k && py == cy + r);
                        if cx + k < self.width && cy + r < self.height {
                            lemma_paint_one(before, start.pixels@, self.stride as int, self.width as int, self.height as int, f, h, cx + k, cy + r, color);
                        } else {
                            lemma_paint_skip(before, start.pixels@, self.stride as int, self.width as int, self.height as int, f, h, cx + k, cy + r, color);
                        }
                        lemma_paint_same(self.pixels@, start.pixels@, self.stride as int, self.width as int, self.height as int, h, g, color);
                    }
                } else {
                    proof {
                        lemma_paint_same(self.pixels@, start.pixels@, self.stride as int, self.width as int, self.height as int, f, g, color);
                    }
                }
                k = k + 1;
            }
            proof {
                lemma_paint_same(self.pixels@, start.pixels@, self.stride as int, self.width as int, self.height as int,
                    |px: int, py: int| cover(px, py) && (py < cy + r || (py == cy + r && px < cx + GLYPH)),
                    |px: int, py: int| cover(px, py) && py < cy + r + 1, color);
            }
            r = r + 1;
        }
        proof {
            lemma_paint_same(self.pixels@, start.pixels@, self.stride as int, self.width as int, self.height as int,
                |px: int, py: int| cover(px, py) && py < cy + GLYPH, cover, color);
            lemma_painted_is_paint(self.pixels@, start.pixels@, self.stride as int, self.width as int, self.height as int, cover, color);
        }
        self.advance();
    }

    /// Writes the characters of `s` in turn at the cursor: see `text_state`.
    pub fn text(&mut self, s: &str, font: &[[u8; 8]])
        requires
            old(self).wf(),
            font@.len() == 95,
        ensures
            old(self).same_frame(final(self)),
            final(self).wf(),
            final(self).color == old(self).color,
            final(self).state() == text_state(old(self).state(), s@, font@, old(self).stride as int,
                old(self).width as int, old(self).height as int, old(self).color),
    {
        broadcast use vstd::string::axiom_spec_iter;
        let ghost sv = s@;
        let ghost st0 = old(self).state();
        for c in it: s.chars()
            invariant
                it.seq() == sv,
                it.index() <= sv.len(),
                font@.len() == 95,
                old(self).same_frame(self),
                self.wf(),
                self.color == old(self).color,
                self.state() == text_state(st0, sv.take(it.index() as int), font@, old(self).stride as int,
                    old(self).width as int, old(self).height as int, old(self).color),
        {
            let ghost i = it.index() as int;
            proof {
                assert(sv.take(i + 1).drop_last() =~= sv.take(i));
                assert(sv.take(i + 1).last() == c);
            }
            self.put_char(c, font);
        }
        proof {
            assert(sv.take(sv.len() as int) =~= sv);
        }
    }

    /// Moves the cursor to `(x, y)` and writes `s` there: see `text_state`.
    pub fn text_at(&mut self, x: usize, y: usize, s: &str, font: &[[u8; 8]])
        requires
            old(self).wf(),
            font@.len() == 95,
            x + STEP + GLYPH <= usize::MAX,
            y + STEP + GLYPH <= usize::MAX,
        ensures
            old(self).same_frame(final(self)),
            final(self).wf(),
            final(self).color == old(self).color,
            final(self).state() == text_state((old(self).pixels@, x as int, y as int), s@, font@,
                old(self).stride as int, old(self).width as int, old(self).height as int, old(self).color),
    {
        self.cursor_x = x;
        self.cursor_y = y;
        self.text(s, font);
    }

    /// Draws the line from `(x0, y0)` to `(x1, y1)` in `color`, one pixel per step of the
    /// longer axis (Bresenham's method); of it the visible pixels are painted. Both ends are
    /// painted, nothing outside the box the ends span changes, and nothing but `color` is
    /// painted.
    pub fn draw_line(&mut self, x0: usize, y0: usize, x1: usize, y1: usize, color: u32)
        requires
            old(self).wf(),
            x0 <= LINE_LIMIT,
            y0 <= LINE_LIMIT,
            x1 <= LINE_LIMIT,
            y1 <= LINE_LIMIT,
        ensures
            old(self).keeps(final(self)),
            forall|px: int, py: int|
                0 <= px < old(self).stride && 0 <= py < old(self).height && !in_line_box(
                    x0 as int,
                    y0 as int,
                    x1 as int,
                    y1 as int,
                    px,
                    py,
                ) ==> #[trigger] final(self).at(px, py) == old(self).at(px, py),
            forall|px: int, py: int|
                0 <= px < old(self).stride && 0 <= py < old(self).height ==> #[trigger] final(self).at(px, py)
                    == old(self).at(px, py) || final(self).at(px, py) == color,
            x0 < old(self).width && y0 < old(self).height ==> final(self).at(x0 as int, y0 as int) == color,
            x1 < old(self).width && y1 < old(self).height ==> final(self).at(x1 as int, y1 as int) == color,
            forall|px: int, py: int|
                0 <= px < old(self).stride && 0 <= py < old(self).height ==> #[trigger] final(self).at(px, py) == (if on_line(
                    x0 as int,
                    y0 as int,
                    x1 as int,
                    y1 as int,
                    px,
                    py,
                ) && px < old(self).width {
                    color
                } else {
                    old(self).at(px, py)
                }),
    {
        let ax: isize = x0 as isize;
        let ay: isize = y0 as isize;
        let bx: isize = x1 as isize;
        let by: isize = y1 as isize;
        let dx: isize = if bx >= ax { bx - ax } else { ax - bx };
        let dy: isize = if by >= ay { ay - by } else { by - ay };
        let sx: isize = if ax < bx { 1 } else { -1 };
        let sy: isize = if ay < by { 1 } else { -1 };
        let mut err: isize = dx + dy;
        let mut x: isize = ax;
        let mut y: isize = ay;
        let ghost big_dy: int = -dy;
        let ghost mut i: int = 0;
        let ghost mut j: int = 0;
        let ghost first = |px: int, py: int| px == x0 && py == y0;
        let ghost mut k: nat = 0;
        let ghost mut region = first;
        let ghost start = *self;
        proof {
            lemma_paint_none(self.pixels@, self.stride as int, self.width as int, self.height as int, |px: int, py: int| false, color);
        }
        let ghost p0 = self.pixels@;
        self.put_pixel(x as usize, y as usize, color);
        proof {
            let none = |px: int, py: int| false;
            if x0 < self.width && y0 < self.height {
                lemma_paint_one(p0, start.pixels@, self.stride as int, self.width as int, self.height as int, none, first, x0 as int, y0 as int, color);
            } else {
                lemma_paint_skip(p0, start.pixels@, self.stride as int, self.width as int, self.height as int, none, first, x0 as int, y0 as int, color);
            }
        }
        assert(err == dx * (j + 1) - big_dy * (i + 1)) by (nonlinear_arith)
            requires err == dx + dy, dy == -big_dy, i == 0, j == 0;
        proof {
            assert(line_point(x0 as int, y0 as int, x1 as int, y1 as int, 0) == (x as int, y as int, err as int));
            assert forall|px: int, py: int| #[trigger] region(px, py) == exists|m: nat|
                m <= k && (#[trigger] line_point(x0 as int, y0 as int, x1 as int, y1 as int, m)).0 == px
                    && line_point(x0 as int, y0 as int, x1 as int, y1 as int, m).1 == py by {
                if region(px, py) {
                    assert(line_point(x0 as int, y0 as int, x1 as int, y1 as int, 0).0 == px);
                }
            }
        }
        while !(x == bx && y == by)
            invariant
                start.wf(),
                start.keeps(self),
                start == *old(self),
                ax == x0 && ay == y0 && bx == x1 && by == y1,
                x0 <= LINE_LIMIT && y0 <= LINE_LIMIT && x1 <= LINE_LIMIT && y1 <= LINE_LIMIT,
                dx == (if bx >= ax { bx - ax } else { ax - bx }),
                big_dy == (if by >= ay { by - ay } else { ay - by }),
                dy == -big_dy,
                sx == (if ax < bx { 1isize } else { -1isize }),
                sy == (if ay < by { 1isize } else { -1isize }),
                0 <= i <= dx,
                0 <= j <= big_dy,
                x == ax + sx * i,
                y == ay + sy * j,
                err == dx * (j + 1) - big_dy * (i + 1),
                -2 * (dx + big_dy) <= err <= 2 * (dx + big_dy),
                region(x0 as int, y0 as int),
                region(x as int, y as int),
                forall|px: int, py: int| #[trigger] region(px, py) ==> in_line_box(x0 as int, y0 as int, x1 as int, y1 as int, px, py),
                self.painted_from(&start, region, color),
                line_point(x0 as int, y0 as int, x1 as int, y1 as int, k) == (x as int, y as int, err as int),
                forall|m: nat| m < k ==> !((#[trigger] line_point(x0 as int, y0 as int, x1 as int, y1 as int, m)).0 == x1
                    && line_point(x0 as int, y0 as int, x1 as int, y1 as int, m).1 == y1),
                forall|px: int, py: int| #[trigger] region(px, py) == exists|m: nat|
                    m <= k && (#[trigger] line_point(x0 as int, y0 as int, x1 as int, y1 as int, m)).0 == px
                        && line_point(x0 as int, y0 as int, x1 as int, y1 as int, m).1 == py,
            decreases (dx - i) + (big_dy - j),
        {
            let e2: isize = 2 * err;
            let ghost old_i = i;
            let ghost old_j = j;
            let ghost old_err = err as int;
            let ghost old_x = x as int;
            let ghost old_y = y as int;
            proof {
                if i == dx && j < big_dy {
                    assert(2 * err < -big_dy) by (nonlinear_arith)
                        requires err == dx * (j + 1) - big_dy * (i + 1), i == dx, 0 <= j, j < big_dy, dx >= 0;
                }
                if j == big_dy && i < dx {
                    assert(2 * err > dx) by (nonlinear_arith)
                        requires err == dx * (j + 1) - big_dy * (i + 1), j == big_dy, 0 <= i, i < dx, big_dy >= 0;
                }
                if i == dx && j == big_dy {
                    assert(x == bx && y == by) by (nonlinear_arith)
                        requires x == ax + sx * i, i == dx, y == ay + sy * j, j == big_dy,
                            dx == (if bx >= ax { bx - ax } else { ax - bx }),
                            sx == (if ax < bx { 1isize } else { -1isize }),
                            big_dy == (if by >= ay { by - ay } else { ay - by }),
                            sy == (if ay < by { 1isize } else { -1isize });
                }
            }
            if e2 >= dy {
                err = err + dy;
                x = x + sx;
                proof {
                    i = i + 1;
                    assert(dx * (j + 1) - big_dy * (i + 1) == dx * (j + 1) - big_dy * (old_i + 1) - big_dy) by (nonlinear_arith)
                        requires i == old_i + 1;
                    assert(ax + sx * i == ax + sx * old_i + sx) by (nonlinear_arith)
                        requires i == old_i + 1;
                }
            }
            if e2 <= dx {
                err = err + dx;
                y = y + sy;
                proof {
                    j = j + 1;
                    assert(dx * (j + 1) - big_dy * (i + 1) == dx * (old_j + 1) - big_dy * (i + 1) + dx) by (nonlinear_arith)
                        requires j == old_j + 1;
                    assert(ay + sy * j == ay + sy * old_j + sy) by (nonlinear_arith)
                        requires j == old_j + 1;
                }
            }
            proof {
                assert(0 <= x <= LINE_LIMIT) by (nonlinear_arith)
                    requires x == ax + sx * i, 0 <= i <= dx,
                        dx == (if bx >= ax { bx - ax } else { ax - bx }),
                        sx == (if ax < bx { 1isize } else { -1isize }),
                        0 <= ax <= LINE_LIMIT, 0 <= bx <= LINE_LIMIT;
                assert(0 <= y <= LINE_LIMIT) by (nonlinear_arith)
                    requires y == ay + sy * j, 0 <= j <= big_dy,
                        big_dy == (if by >= ay { by - ay } else { ay - by }),
                        sy == (if ay < by { 1isize } else { -1isize }),
                        0 <= ay <= LINE_LIMIT, 0 <= by <= LINE_LIMIT;
                assert(in_line_box(x0 as int, y0 as int, x1 as int, y1 as int, x as int, y as int)) by (nonlinear_arith)
                    requires x == ax + sx * i, 0 <= i <= dx, y == ay + sy * j, 0 <= j <= big_dy,
                        dx == (if bx >= ax { bx - ax } else { ax - bx }),
                        sx == (if ax < bx { 1isize } else { -1isize }),
                        big_dy == (if by >= ay { by - ay } else { ay - by }),
                        sy == (if ay < by { 1isize } else { -1isize }),
                        ax == x0, ay == y0, bx == x1, by == y1;
            }
            proof {
                let kk = (k + 1) as nat;
                assert(line_point(x0 as int, y0 as int, x1 as int, y1 as int, kk) == (x as int, y as int, err as int));
                assert forall|m: nat| m < kk implies !((#[trigger] line_point(x0 as int, y0 as int, x1 as int, y1 as int, m)).0 == x1
                    && line_point(x0 as int, y0 as int, x1 as int, y1 as int, m).1 == y1) by {
                    if m == k {
                        assert(line_point(x0 as int, y0 as int, x1 as int, y1 as int, m).0 == old_x);
                    }
                }
            }
            let ghost before = self.pixels@;
            let ghost prev = region;
            let ghost k0 = k;
            self.put_pixel(x as usize, y as usize, color);
            proof {
                let next = |px: int, py: int| prev(px, py) || (px == x && py == y);
                if (x as usize) < self.width && (y as usize) < self.height {
                    lemma_paint_one(before, start.pixels@, self.stride as int, self.width as int, self.height as int, prev, next, x as int, y as int, color);
                } else {
                    lemma_paint_skip(before, start.pixels@, self.stride as int, self.width as int, self.height as int, prev, next, x as int, y as int, color);
                }
                region = next;
                k = (k + 1) as nat;
                assert forall|px: int, py: int| #[trigger] region(px, py) == exists|m: nat|
                    m <= k && (#[trigger] line_point(x0 as int, y0 as int, x1 as int, y1 as int, m)).0 == px
                        && line_point(x0 as int, y0 as int, x1 as int, y1 as int, m).1 == py by {
                    if prev(px, py) {
                        let m = choose|m: nat| m <= k0 && (#[trigger] line_point(x0 as int, y0 as int, x1 as int, y1 as int, m)).0 == px
                            && line_point(x0 as int, y0 as int, x1 as int, y1 as int, m).1 == py;
                        assert(m <= k);
                    } else if px == x && py == y {
                        assert(line_point(x0 as int, y0 as int, x1 as int, y1 as int, k).0 == px);
                    } else {
                        if exists|m: nat| m <= k && (#[trigger] line_point(x0 as int, y0 as int, x1 as int, y1 as int, m)).0 == px
                            && line_point(x0 as int, y0 as int, x1 as int, y1 as int, m).1 == py {
                            let m = choose|m: nat| m <= k && (#[trigger] line_point(x0 as int, y0 as int, x1 as int, y1 as int, m)).0 == px
                                && line_point(x0 as int, y0 as int, x1 as int, y1 as int, m).1 == py;
                            assert(m <= k0);
                        }
                    }
                }
            }
        }
        proof {
            assert(line_point(x0 as int, y0 as int, x1 as int, y1 as int, k).0 == x1);
            assert forall|px: int, py: int| region(px, py) == on_line(x0 as int, y0 as int, x1 as int, y1 as int, px, py) by {
                if region(px, py) {
                    let m = choose|m: nat| m <= k && (#[trigger] line_point(x0 as int, y0 as int, x1 as int, y1 as int, m)).0 == px
                        && line_point(x0 as int, y0 as int, x1 as int, y1 as int, m).1 == py;
                    assert forall|m2: nat| m2 < m implies !((#[trigger] line_point(x0 as int, y0 as int, x1 as int, y1 as int, m2)).0 == x1
                        && line_point(x0 as int, y0 as int, x1 as int, y1 as int, m2).1 == y1) by {
                        assert(m2 < k);
                    }
                }
                if on_line(x0 as int, y0 as int, x1 as int, y1 as int, px, py) {
                    let m = choose|m: nat|
                        (#[trigger] line_point(x0 as int, y0 as int, x1 as int, y1 as int, m)).0 == px && line_point(x0 as int, y0 as int, x1 as int, y1 as int, m).1 == py
                            && forall|m2: nat| m2 < m ==> !((#[trigger] line_point(x0 as int, y0 as int, x1 as int, y1 as int, m2)).0 == x1
                                && line_point(x0 as int, y0 as int, x1 as int, y1 as int, m2).1 == y1);
                    if m > k {
                        assert(line_point(x0 as int, y0 as int, x1 as int, y1 as int, k).1 == y1);
                    }
                    assert(m <= k);
                }
            }
            assert forall|px: int, py: int|
                0 <= px < start.stride && 0 <= py < start.height implies #[trigger] self.at(px, py) == (if on_line(
                    x0 as int,
                    y0 as int,
                    x1 as int,
                    y1 as int,
                    px,
                    py,
                ) && px < start.width {
                    color
                } else {
                    start.at(px, py)
                }) by {
                assert(self.pixels@[idx(px, py, start.stride as int)] == (if region(px, py) && px < start.width { color } else { start.pixels@[idx(px, py, start.stride as int)] }));
                assert(region(px, py) == on_line(x0 as int, y0 as int, x1 as int, y1 as int, px, py));
            }
        }
        proof {
            assert forall|px: int, py: int|
                0 <= px < start.stride && 0 <= py < start.height implies #[trigger] self.at(px, py)
                    == start.at(px, py) || self.at(px, py) == color by {
                assert(self.pixels@[idx(px, py, start.stride as int)] == (if region(px, py) && px < start.width { color } else { start.pixels@[idx(px, py, start.stride as int)] }));
            }
            assert forall|px: int, py: int|
                0 <= px < start.stride && 0 <= py < start.height && !in_line_box(x0 as int, y0 as int, x1 as int, y1 as int, px, py)
                    implies #[trigger] self.at(px, py) == start.at(px, py) by {
                assert(self.pixels@[idx(px, py, start.stride as int)] == (if region(px, py) && px < start.width { color } else { start.pixels@[idx(px, py, start.stride as int)] }));
            }
            if x0 < start.width && y0 < start.height {
                assert(self.pixels@[idx(x0 as int, y0 as int, start.stride as int)] == color);
            }
            if x1 < start.width && y1 < start.height {
                assert(self.pixels@[idx(x1 as int, y1 as int, start.stride as int)] == color);
            }
        }
    }

    /// Writes the bytes of `s` in turn at the cursor, each as the character of its value:
    /// see `text_state`.
    pub fn text_bytes(&mut self, s: &[u8], font: &[[u8; 8]])
        requires
            old(self).wf(),
            font@.len() == 95,
        ensures
            old(self).same_frame(final(self)),
            final(self).wf(),
            final(self).color == old(self).color,
            final(self).state() == text_state(old(self).state(), s@.map_values(|b: u8| b as char), font@,
                old(self).stride as int, old(self).width as int, old(self).height as int, old(self).color),
    {
        let ghost sv = s@.map_values(|b: u8| b as char);
        let ghost st0 = old(self).state();
        let mut i: usize = 0;
        while i < s.len()
            invariant
                i <= s@.len(),
                sv == s@.map_values(|b: u8| b as char),
                font@.len() == 95,
                old(self).same_frame(self),
                self.wf(),
                self.color == old(self).color,
                self.state() == text_state(st0, sv.take(i as int), font@, old(self).stride as int,
                    old(self).width as int, old(self).height as int, old(self).color),
            decreases s@.len() - i,
        {
            let c: char = s[i] as char;
            proof {
                assert(sv.take(i + 1).drop_last() =~= sv.take(i as int));
                assert(sv.take(i + 1).last() == c);
            }
            self.put_char(c, font);
            i = i + 1;
        }
        proof {
            assert(sv.take(s@.len() as int) =~= sv);
        }
    }
}

} // verus!
