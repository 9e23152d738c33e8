use vstd::prelude::*;
use crate::bytes::copy_of;

verus! {

/// A text colour of the firmware console.
#[derive(Clone, Copy, PartialEq, Eq, Structural)]
pub enum TextColor {
    Black,
    LightGray,
}

/// One step of drawing on the text console.
pub enum ConsoleOp {
    /// Select the foreground and background colours.
    SetColor { fg: TextColor, bg: TextColor },
    /// Write `text` with its first character at column `col` of row `row`.
    Put { col: usize, row: usize, text: Vec<u8> },
    /// Clear the whole screen.
    Clear,
}

/// The mathematical content of a console step.
pub ghost enum OpView {
    SetColor { fg: TextColor, bg: TextColor },
    Put { col: int, row: int, text: Seq<u8> },
    Clear,
}

impl View for ConsoleOp {
    type V = OpView;

    open spec fn view(&self) -> OpView {
        match self {
            ConsoleOp::SetColor { fg, bg } => OpView::SetColor { fg: *fg, bg: *bg },
            ConsoleOp::Put { col, row, text } => OpView::Put { col: *col as int, row: *row as int, text: text@ },
            ConsoleOp::Clear => OpView::Clear,
        }
    }
}

/// The steps as values.
pub open spec fn ops_view(ops: Seq<ConsoleOp>) -> Seq<OpView> {
    ops.map_values(|o: ConsoleOp| o@)
}

/// Body text: light grey on black.
pub open spec fn normal() -> OpView {
    OpView::SetColor { fg: TextColor::LightGray, bg: TextColor::Black }
}

/// Bars: black on light grey.
pub open spec fn inverse() -> OpView {
    OpView::SetColor { fg: TextColor::Black, bg: TextColor::LightGray }
}

/// `n` spaces.
pub open spec fn spaces_spec(n: nat) -> Seq<u8> {
    Seq::new(n, |i: int| 32u8)
}

/// `a - b`, or 0 when `b` is larger.
pub open spec fn sat_sub(a: int, b: int) -> int {
    if a > b { a - b } else { 0 }
}

fn spaces(n: usize) -> (r: Vec<u8>)
    ensures
        r@ == spaces_spec(n as nat),
{
    let mut s: Vec<u8> = Vec::new();
    while s.len() < n
        invariant
            s.len() <= n,
            s@ == spaces_spec(s.len() as nat),
        decreases n - s.len(),
    {
        s.push(32);
        assert(s@ =~= spaces_spec(s.len() as nat));
    }
    s
}

fn put(col: usize, row: usize, text: &[u8]) -> (r: ConsoleOp)
    ensures
        r@ == (OpView::Put { col: col as int, row: row as int, text: text@ }),
{
    ConsoleOp::Put { col, row, text: copy_of(text) }
}

fn set_normal() -> (r: ConsoleOp)
    ensures
        r@ == normal(),
{
    ConsoleOp::SetColor { fg: TextColor::LightGray, bg: TextColor::Black }
}

fn set_inverse() -> (r: ConsoleOp)
    ensures
        r@ == inverse(),
{
    ConsoleOp::SetColor { fg: TextColor::Black, bg: TextColor::LightGray }
}

/// Body text at column `col` of row `row`.
pub fn text(col: usize, row: usize, s: &[u8]) -> (r: Vec<ConsoleOp>)
    ensures
        ops_view(r@) == seq![normal(), OpView::Put { col: col as int, row: row as int, text: s@ }],
{
    let r = vec![set_normal(), put(col, row, s)];
    assert(ops_view(r@) =~= seq![normal(), OpView::Put { col: col as int, row: row as int, text: s@ }]);
    r
}

/// A grey bar across a screen `cols` wide (one column margin each side) on row `row`, with
/// `label` centred in it.
pub fn title_bar(cols: usize, row: usize, label: &[u8]) -> (r: Vec<ConsoleOp>)
    ensures
        ({
            let w = sat_sub(cols as int, 2);
            ops_view(r@) == seq![
                inverse(),
                OpView::Put { col: 1, row: row as int, text: spaces_spec(w as nat) },
                OpView::Put { col: 1 + sat_sub(w, label@.len() as int) / 2, row: row as int, text: label@ },
                normal(),
            ]
        }),
{
    let w = cols.saturating_sub(2);
    let cx = 1 + w.saturating_sub(label.len()) / 2;
    let r = vec![set_inverse(), put(1, row, spaces(w).as_slice()), put(cx, row, label), set_normal()];
    proof {
        let ws = sat_sub(cols as int, 2);
        assert(ops_view(r@) =~= seq![
            inverse(),
            OpView::Put { col: 1, row: row as int, text: spaces_spec(ws as nat) },
            OpView::Put { col: 1 + sat_sub(ws, label@.len() as int) / 2, row: row as int, text: label@ },
            normal(),
        ]);
    }
    r
}

/// A grey bar across row `row` of a screen `cols` wide, with `left` near its left end,
/// `mid` centred and `right` near its right end.
pub fn bottom_bar(cols: usize, row: usize, left: &[u8], mid: &[u8], right: &[u8]) -> (r: Vec<ConsoleOp>)
    requires
        right@.len() + 2 <= usize::MAX,
    ensures
        ({
            let w = sat_sub(cols as int, 2);
            ops_view(r@) == seq![
                inverse(),
                OpView::Put { col: 1, row: row as int, text: spaces_spec(w as nat) },
                OpView::Put { col: 3, row: row as int, text: left@ },
                OpView::Put { col: 1 + sat_sub(w, mid@.len() as int) / 2, row: row as int, text: mid@ },
                OpView::Put { col: sat_sub(1 + w, right@.len() as int + 2), row: row as int, text: right@ },
                normal(),
            ]
        }),
{
    let w = cols.saturating_sub(2);
    let mx = 1 + w.saturating_sub(mid.len()) / 2;
    let rx = (1 + w).saturating_sub(right.len() + 2);
    let r = vec![
        set_inverse(),
        put(1, row, spaces(w).as_slice()),
        put(3, row, left),
        put(mx, row, mid),
        put(rx, row, right),
        set_normal(),
    ];
    proof {
        let ws = sat_sub(cols as int, 2);
        assert(ops_view(r@) =~= seq![
            inverse(),
            OpView::Put { col: 1, row: row as int, text: spaces_spec(ws as nat) },
            OpView::Put { col: 3, row: row as int, text: left@ },
            OpView::Put { col: 1 + sat_sub(ws, mid@.len() as int) / 2, row: row as int, text: mid@ },
            OpView::Put { col: sat_sub(1 + ws, right@.len() as int + 2), row: row as int, text: right@ },
            normal(),
        ]);
    }
    r
}

/// A menu line on row `row` of a screen `cols` wide: a bar four columns in from each side
/// with `label` one column into it; a selected line is grey and ends in `>`.
pub fn entry(cols: usize, row: usize, label: &[u8], selected: bool) -> (r: Vec<ConsoleOp>)
    ensures
        ({
            let w = sat_sub(cols as int, 8);
            ops_view(r@) == if selected {
                seq![
                    inverse(),
                    OpView::Put { col: 4, row: row as int, text: spaces_spec(w as nat) },
                    OpView::Put { col: 5, row: row as int, text: label@ },
                    OpView::Put { col: 4 + w - 1, row: row as int, text: seq![62u8] },
                    normal(),
                ]
            } else {
                seq![
                    normal(),
                    OpView::Put { col: 4, row: row as int, text: spaces_spec(w as nat) },
                    OpView::Put { col: 5, row: row as int, text: label@ },
                    normal(),
                ]
            }
        }),
{
    let w = cols.saturating_sub(8);
    let r = if selected {
        let gt: [u8; 1] = [62u8];
        let r = vec![set_inverse(), put(4, row, spaces(w).as_slice()), put(5, row, label), put(3 + w, row, gt.as_slice()), set_normal()];
        assert(gt@ =~= seq![62u8]);
        r
    } else {
        vec![set_normal(), put(4, row, spaces(w).as_slice()), put(5, row, label), set_normal()]
    };
    proof {
        if selected {
            assert(ops_view(r@) =~= seq![
                inverse(),
                OpView::Put { col: 4, row: row as int, text: spaces_spec(w as nat) },
                OpView::Put { col: 5, row: row as int, text: label@ },
                OpView::Put { col: 4 + w - 1, row: row as int, text: seq![62u8] },
                normal(),
            ]);
        } else {
            assert(ops_view(r@) =~= seq![
                normal(),
                OpView::Put { col: 4, row: row as int, text: spaces_spec(w as nat) },
                OpView::Put { col: 5, row: row as int, text: label@ },
                normal(),
            ]);
        }
    }
    r
}

/// Blanks row `row` of a screen `cols` wide.
pub fn clear_row(cols: usize, row: usize) -> (r: Vec<ConsoleOp>)
    ensures
        ops_view(r@) == seq![normal(), OpView::Put { col: 0, row: row as int, text: spaces_spec(cols as nat) }],
{
    let r = vec![set_normal(), put(0, row, spaces(cols).as_slice())];
    assert(ops_view(r@) =~= seq![normal(), OpView::Put { col: 0, row: row as int, text: spaces_spec(cols as nat) }]);
    r
}

/// Clears the screen in the body colours.
pub fn clear_all() -> (r: Vec<ConsoleOp>)
    ensures
        ops_view(r@) == seq![normal(), OpView::Clear],
{
    let r = vec![set_normal(), ConsoleOp::Clear];
    assert(ops_view(r@) =~= seq![normal(), OpView::Clear]);
    r
}

} // verus!
